//! The log viewer's model: lines read as JSON objects (or wrapped when
//! they are not), and the state of the viewer over them — columns, a
//! selection that can follow the tail, a fuzzy filter, the detail view and
//! the menu of fields.

use vstd::prelude::*;

use crate::logs::{
    ascii_lower, fuzzy, fuzzy_match, kill_word_left, lemma_utf8_len_grows, lemma_word_start_bound, to_ascii_lower, utf8_len,
    word_start,
};
use crate::statement::string_views;
use crate::text::{
    chars_eq, chars_of, is_whitespace, is_ws, join_first, joined, push_chars, string_of, views,
};

verus! {

// ---- entries ---------------------------------------------------------------

/// A value in a log line, as far as the viewer shows it.
#[derive(Debug, Clone, PartialEq, Eq)]
pub enum FieldValue {
    Null,
    Bool(bool),
    /// A number, as JSON writes it.
    Number(String),
    Text(String),
    /// An array or object, as compact JSON.
    Nested(String),
}

pub enum FieldView {
    Null,
    Bool(bool),
    Number(Seq<char>),
    Text(Seq<char>),
    Nested(Seq<char>),
}

impl View for FieldValue {
    type V = FieldView;

    open spec fn view(&self) -> FieldView {
        match self {
            FieldValue::Null => FieldView::Null,
            FieldValue::Bool(b) => FieldView::Bool(*b),
            FieldValue::Number(n) => FieldView::Number(n@),
            FieldValue::Text(t) => FieldView::Text(t@),
            FieldValue::Nested(j) => FieldView::Nested(j@),
        }
    }
}

pub type FieldsView = Seq<(Seq<char>, FieldView)>;

pub open spec fn field_views(fs: Seq<(String, FieldValue)>) -> FieldsView {
    fs.map_values(|f: (String, FieldValue)| (f.0@, f.1@))
}

/// How a value shows: nothing for null, the text itself for a string,
/// anything else as JSON writes it.
pub open spec fn value_text(v: FieldView) -> Seq<char> {
    match v {
        FieldView::Null => Seq::empty(),
        FieldView::Bool(b) => if b {
            "true"@
        } else {
            "false"@
        },
        FieldView::Number(n) => n,
        FieldView::Text(t) => t,
        FieldView::Nested(j) => j,
    }
}

/// A value shown as text.
pub fn stringify(v: &FieldValue) -> (r: String)
    ensures
        r@ == value_text(v@),
{
    match v {
        FieldValue::Null => String::new(),
        FieldValue::Bool(b) => if *b {
            string_of(&chars_of("true"))
        } else {
            string_of(&chars_of("false"))
        },
        FieldValue::Number(n) => string_of(&chars_of(n.as_str())),
        FieldValue::Text(t) => string_of(&chars_of(t.as_str())),
        FieldValue::Nested(j) => string_of(&chars_of(j.as_str())),
    }
}

/// The fields `serde_json` reads from a line that is a JSON object, in
/// the object's order; nothing for anything else.
pub uninterp spec fn json_fields_of(line: Seq<char>) -> Option<FieldsView>;

/// `serde_json::from_str::<Value>`, kept when it gives an object: each
/// field with its value told apart by kind, numbers and nested values
/// written back as JSON. How JSON reads is named, not stated.
#[verifier::external_body]
fn parse_object(line: &str) -> (r: Option<Vec<(String, FieldValue)>>)
    ensures
        match r {
            Some(fs) => json_fields_of(line@) == Some(field_views(fs@)),
            None => json_fields_of(line@) is None,
        },
{
    match serde_json::from_str::<serde_json::Value>(line) {
        Ok(serde_json::Value::Object(map)) => Some(map.into_iter().map(|(k, v)| (k, match v {
            serde_json::Value::Null => FieldValue::Null,
            serde_json::Value::Bool(b) => FieldValue::Bool(b),
            serde_json::Value::Number(n) => FieldValue::Number(n.to_string()),
            serde_json::Value::String(s) => FieldValue::Text(s),
            other => FieldValue::Nested(other.to_string()),
        })).collect()),
        _ => None,
    }
}

/// One line of the log, read.
#[derive(Debug, Clone)]
pub struct Entry {
    pub raw: String,
    pub fields: Vec<(String, FieldValue)>,
    /// The line was not a JSON object and sits under the default field.
    pub wrapped: bool,
    /// The line came from the command's standard error.
    pub is_stderr: bool,
}

/// The value of the first field named `key`.
pub open spec fn field_of(fs: FieldsView, key: Seq<char>) -> Option<FieldView>
    decreases fs.len(),
{
    if fs.len() == 0 {
        None
    } else if fs[0].0 == key {
        Some(fs[0].1)
    } else {
        field_of(fs.drop_first(), key)
    }
}

/// The first candidate key whose value shows as something, as shown; or
/// nothing.
pub open spec fn pick_of(fs: FieldsView, candidates: Seq<Seq<char>>) -> Seq<char>
    decreases candidates.len(),
{
    if candidates.len() == 0 {
        Seq::empty()
    } else {
        match field_of(fs, candidates[0]) {
            Some(v) => if value_text(v).len() > 0 {
                value_text(v)
            } else {
                pick_of(fs, candidates.drop_first())
            },
            None => pick_of(fs, candidates.drop_first()),
        }
    }
}

impl Entry {
    pub open spec fn fields_view(&self) -> FieldsView {
        field_views(self.fields@)
    }

    /// Reads a line: a JSON object as its fields, anything else wrapped
    /// as text under `default_field`.
    pub fn parse(line: &str, default_field: &str) -> (r: Entry)
        ensures
            r.raw@ == line@,
            !r.is_stderr,
            match json_fields_of(line@) {
                Some(fs) => r.fields_view() == fs && !r.wrapped,
                None => r.fields_view() == seq![(default_field@, FieldView::Text(line@))]
                    && r.wrapped,
            },
    {
        let raw = string_of(&chars_of(line));
        match parse_object(line) {
            Some(fields) => Entry { raw, fields, wrapped: false, is_stderr: false },
            None => {
                let mut fields: Vec<(String, FieldValue)> = Vec::new();
                fields.push(
                    (string_of(&chars_of(default_field)), FieldValue::Text(string_of(&chars_of(line)))),
                );
                assert(field_views(fields@) =~= seq![(default_field@, FieldView::Text(line@))]);
                Entry { raw, fields, wrapped: true, is_stderr: false }
            },
        }
    }

    /// A line read from the command's standard error.
    pub fn parse_stderr(line: &str, default_field: &str) -> (r: Entry)
        ensures
            r.raw@ == line@,
            r.is_stderr,
            match json_fields_of(line@) {
                Some(fs) => r.fields_view() == fs && !r.wrapped,
                None => r.fields_view() == seq![(default_field@, FieldView::Text(line@))]
                    && r.wrapped,
            },
    {
        let mut e = Entry::parse(line, default_field);
        e.is_stderr = true;
        e
    }

    /// The value of a field.
    pub fn get(&self, key: &str) -> (r: Option<&FieldValue>)
        ensures
            match r {
                Some(v) => field_of(self.fields_view(), key@) == Some(v@),
                None => field_of(self.fields_view(), key@) is None,
            },
    {
        let ghost fs = self.fields_view();
        let mut i: usize = 0;
        assert(fs.skip(0) =~= fs);
        while i < self.fields.len()
            invariant
                i <= self.fields@.len(),
                fs == self.fields_view(),
                field_of(fs, key@) == field_of(fs.skip(i as int), key@),
            decreases self.fields.len() - i,
        {
            assert(fs.skip(i as int)[0] == (self.fields@[i as int].0@, self.fields@[i as int].1@));
            if crate::text::str_eq(self.fields[i].0.as_str(), key) {
                return Some(&self.fields[i].1);
            }
            assert(fs.skip(i as int).drop_first() =~= fs.skip(i + 1));
            i = i + 1;
        }
        None
    }

    /// The first candidate key whose value shows as something, as shown.
    pub fn pick(&self, candidates: &Vec<String>) -> (r: String)
        ensures
            r@ == pick_of(self.fields_view(), string_views(candidates@)),
    {
        let ghost cs = string_views(candidates@);
        let mut i: usize = 0;
        assert(cs.skip(0) =~= cs);
        while i < candidates.len()
            invariant
                i <= candidates@.len(),
                cs == string_views(candidates@),
                pick_of(self.fields_view(), cs) == pick_of(self.fields_view(), cs.skip(i as int)),
            decreases candidates.len() - i,
        {
            assert(cs.skip(i as int)[0] == candidates@[i as int]@);
            assert(cs.skip(i as int).drop_first() =~= cs.skip(i + 1));
            match self.get(candidates[i].as_str()) {
                Some(v) => {
                    let s = stringify(v);
                    if chars_of(s.as_str()).len() > 0 {
                        return s;
                    }
                },
                None => {},
            }
            i = i + 1;
        }
        String::new()
    }

    /// The entry's fields, in the object's order; a line that was not an
    /// object has its one wrapped field.
    pub fn object(&self) -> (r: Option<&Vec<(String, FieldValue)>>)
        ensures
            r == Some(&self.fields),
    {
        Some(&self.fields)
    }

    /// A field's value as shown.
    pub fn get_str(&self, key: &str) -> (r: Option<String>)
        ensures
            match r {
                Some(s) => field_of(self.fields_view(), key@) matches Some(v) && s@ == value_text(v),
                None => field_of(self.fields_view(), key@) is None,
            },
    {
        match self.get(key) {
            Some(v) => Some(stringify(v)),
            None => None,
        }
    }

    /// The field names, in order.
    pub fn keys(&self) -> (r: Vec<String>)
        ensures
            string_views(r@) == self.fields_view().map_values(|f: (Seq<char>, FieldView)| f.0),
    {
        let ghost want = self.fields_view().map_values(|f: (Seq<char>, FieldView)| f.0);
        let mut out: Vec<String> = Vec::new();
        let mut i: usize = 0;
        while i < self.fields.len()
            invariant
                i <= self.fields@.len(),
                want == self.fields_view().map_values(|f: (Seq<char>, FieldView)| f.0),
                string_views(out@) =~= want.take(i as int),
            decreases self.fields.len() - i,
        {
            let ghost before = out@;
            out.push(string_of(&chars_of(self.fields[i].0.as_str())));
            assert(string_views(out@) =~= string_views(before).push(want[i as int]));
            assert(want.take(i + 1) =~= want.take(i as int).push(want[i as int]));
            i = i + 1;
        }
        assert(want.take(i as int) =~= want);
        out
    }
}

// ---- the viewer ------------------------------------------------------------

/// A configured field: the column's name and the keys it reads, first
/// match wins; no keys means the name itself.
#[derive(Debug, Clone)]
pub struct FieldDef {
    pub name: String,
    pub from: Vec<String>,
}

/// A column of the list.
#[derive(Debug, Clone)]
pub struct ColumnState {
    pub name: String,
    pub from: Vec<String>,
    pub visible: bool,
}

pub struct ColumnView {
    pub name: Seq<char>,
    pub from: Seq<Seq<char>>,
    pub visible: bool,
}

impl View for ColumnState {
    type V = ColumnView;

    open spec fn view(&self) -> ColumnView {
        ColumnView { name: self.name@, from: string_views(self.from@), visible: self.visible }
    }
}

pub open spec fn column_views(cs: Seq<ColumnState>) -> Seq<ColumnView> {
    cs.map_values(|c: ColumnState| c@)
}

fn copy_string(s: &String) -> (r: String)
    ensures
        r@ == s@,
{
    string_of(&chars_of(s.as_str()))
}

fn copy_strings(v: &Vec<String>) -> (r: Vec<String>)
    ensures
        string_views(r@) == string_views(v@),
{
    let mut out: Vec<String> = Vec::new();
    let mut i: usize = 0;
    while i < v.len()
        invariant
            i <= v@.len(),
            string_views(out@) =~= string_views(v@.take(i as int)),
        decreases v.len() - i,
    {
        let ghost before = out@;
        out.push(copy_string(&v[i]));
        assert(string_views(out@) =~= string_views(before).push(v@[i as int]@));
        assert(v@.take(i + 1) =~= v@.take(i as int).push(v@[i as int]));
        i = i + 1;
    }
    assert(v@.take(i as int) =~= v@);
    out
}

impl ColumnState {
    /// A visible column for a configured field.
    pub fn from_field(f: FieldDef) -> (r: ColumnState)
        ensures
            r.name == f.name,
            r.visible,
            string_views(r.from@) == if f.from@.len() == 0 {
                seq![f.name@]
            } else {
                string_views(f.from@)
            },
    {
        let from = if f.from.len() == 0 {
            let mut v: Vec<String> = Vec::new();
            v.push(copy_string(&f.name));
            assert(string_views(v@) =~= seq![f.name@]);
            v
        } else {
            f.from
        };
        ColumnState { name: f.name, from, visible: true }
    }
}

/// Which view is showing.
#[derive(Debug, Clone, Copy, PartialEq, Eq, Structural)]
pub enum ViewMode {
    List,
    Detail,
    FieldsMenu,
}

/// The detail view's cursor: 0 is the whole line, 1 on the fields.
#[derive(Debug, Clone, Copy, Default, PartialEq, Eq, Structural)]
pub struct DetailState {
    pub row: usize,
}

#[derive(Debug, Clone, Copy, Default, PartialEq, Eq, Structural)]
pub struct FieldsMenuState {
    pub cursor: usize,
}

/// What each visible column shows of an entry, in order.
pub open spec fn visible_picks(cols: Seq<ColumnView>, fs: FieldsView) -> Seq<Seq<char>>
    decreases cols.len(),
{
    if cols.len() == 0 {
        Seq::empty()
    } else {
        let rest = visible_picks(cols.drop_last(), fs);
        if cols.last().visible {
            rest.push(pick_of(fs, cols.last().from))
        } else {
            rest
        }
    }
}

/// What the filter searches in an entry: the visible columns' values,
/// space-separated.
pub open spec fn haystack_of(cols: Seq<ColumnView>, fs: FieldsView) -> Seq<char> {
    joined(visible_picks(cols, fs), " "@)
}

/// The first `n` entries that pass the filter, by position.
pub open spec fn matching(es: Seq<Entry>, cols: Seq<ColumnView>, filter: Seq<char>, n: int) -> Seq<usize>
    decreases n,
{
    if n <= 0 {
        Seq::empty()
    } else {
        let rest = matching(es, cols, filter, n - 1);
        if fuzzy(filter, haystack_of(cols, es[n - 1].fields_view())) {
            rest.push((n - 1) as usize)
        } else {
            rest
        }
    }
}

/// The entries shown, by position: all of them, or those that pass the
/// filter when there is one.
pub open spec fn shown_of(es: Seq<Entry>, cols: Seq<ColumnView>, filter: Seq<char>) -> Seq<usize> {
    if filter.len() == 0 {
        Seq::new(es.len(), |i: int| i as usize)
    } else {
        matching(es, cols, filter, es.len() as int)
    }
}

/// The first position holding `idx`.
pub open spec fn position_of(d: Seq<usize>, idx: usize) -> Option<int>
    decreases d.len(),
{
    if d.len() == 0 {
        None
    } else if d[0] == idx {
        Some(0)
    } else {
        match position_of(d.drop_first(), idx) {
            Some(p) => Some(p + 1),
            None => None,
        }
    }
}

proof fn lemma_position_at(d: Seq<usize>, idx: usize, p: int)
    requires
        0 <= p < d.len(),
        d[p] == idx,
        forall|q: int| 0 <= q < p ==> d[q] != idx,
    ensures
        position_of(d, idx) == Some(p),
    decreases p,
{
    if p > 0 {
        assert forall|q: int| 0 <= q < p - 1 implies d.drop_first()[q] != idx by {
            assert(d.drop_first()[q] == d[q + 1]);
        }
        lemma_position_at(d.drop_first(), idx, p - 1);
    }
}

proof fn lemma_position_none(d: Seq<usize>, idx: usize)
    requires
        forall|q: int| 0 <= q < d.len() ==> d[q] != idx,
    ensures
        position_of(d, idx) is None,
    decreases d.len(),
{
    if d.len() > 0 {
        assert forall|q: int| 0 <= q < d.drop_first().len() implies d.drop_first()[q] != idx by {
            assert(d.drop_first()[q] == d[q + 1]);
        }
        lemma_position_none(d.drop_first(), idx);
    }
}

proof fn lemma_position_bound(d: Seq<usize>, idx: usize)
    ensures
        position_of(d, idx) matches Some(p) ==> 0 <= p < d.len() && d[p] == idx,
    decreases d.len(),
{
    if d.len() > 0 && d[0] != idx {
        lemma_position_bound(d.drop_first(), idx);
    }
}

proof fn lemma_matching(es: Seq<Entry>, cols: Seq<ColumnView>, filter: Seq<char>, n: int)
    requires
        0 <= n <= es.len(),
        es.len() <= usize::MAX,
    ensures
        forall|k: int| 0 <= k < matching(es, cols, filter, n).len() ==> #[trigger] matching(es, cols, filter, n)[k] < n,
        forall|k: int, l: int|
            0 <= k < l < matching(es, cols, filter, n).len() ==> matching(es, cols, filter, n)[k] < matching(
                es,
                cols,
                filter,
                n,
            )[l],
    decreases n,
{
    if n > 0 {
        lemma_matching(es, cols, filter, n - 1);
        let m = matching(es, cols, filter, n);
        let r = matching(es, cols, filter, n - 1);
        if m.len() > r.len() {
            assert(m == r.push((n - 1) as usize));
            assert forall|k: int| 0 <= k < m.len() implies #[trigger] m[k] < n by {
                if k < r.len() {
                    assert(m[k] == r[k]);
                }
            }
            assert forall|k: int, l: int| 0 <= k < l < m.len() implies m[k] < m[l] by {
                assert(m[k] == r[k]);
                if l < r.len() {
                    assert(m[l] == r[l]);
                } else {
                    assert(m[l] == n - 1);
                    assert(r[k] < n - 1);
                }
            }
        } else {
            assert(m == r);
        }
    }
}

/// The places of the visible columns, in order.
pub open spec fn visible_positions(cols: Seq<ColumnView>) -> Seq<int>
    decreases cols.len(),
{
    if cols.len() == 0 {
        Seq::empty()
    } else {
        let rest = visible_positions(cols.drop_last());
        if cols.last().visible {
            rest.push(cols.len() - 1)
        } else {
            rest
        }
    }
}

/// The first place where `p` holds.
pub open spec fn first_where<A>(s: Seq<A>, p: spec_fn(A) -> bool) -> Option<int>
    decreases s.len(),
{
    if s.len() == 0 {
        None
    } else if p(s[0]) {
        Some(0)
    } else {
        match first_where(s.drop_first(), p) {
            Some(i) => Some(i + 1),
            None => None,
        }
    }
}

proof fn lemma_first_where_at<A>(s: Seq<A>, p: spec_fn(A) -> bool, i: int)
    requires
        0 <= i < s.len(),
        p(s[i]),
        forall|q: int| 0 <= q < i ==> !p(#[trigger] s[q]),
    ensures
        first_where(s, p) == Some(i),
    decreases i,
{
    if i > 0 {
        assert forall|q: int| 0 <= q < i - 1 implies !p(#[trigger] s.drop_first()[q]) by {
            assert(s.drop_first()[q] == s[q + 1]);
        }
        lemma_first_where_at(s.drop_first(), p, i - 1);
    }
}

proof fn lemma_first_where_bound<A>(s: Seq<A>, p: spec_fn(A) -> bool)
    ensures
        first_where(s, p) matches Some(i) ==> 0 <= i < s.len() && p(s[i]),
    decreases s.len(),
{
    if s.len() > 0 && !p(s[0]) {
        lemma_first_where_bound(s.drop_first(), p);
    }
}

proof fn lemma_first_where_none<A>(s: Seq<A>, p: spec_fn(A) -> bool)
    requires
        forall|q: int| 0 <= q < s.len() ==> !p(#[trigger] s[q]),
    ensures
        first_where(s, p) is None,
    decreases s.len(),
{
    if s.len() > 0 {
        assert forall|q: int| 0 <= q < s.drop_first().len() implies !p(#[trigger] s.drop_first()[q]) by {
            assert(s.drop_first()[q] == s[q + 1]);
        }
        lemma_first_where_none(s.drop_first(), p);
    }
}

/// The column the level is read from: the first named "level", in any
/// case.
pub open spec fn level_column(cols: Seq<ColumnView>) -> Option<int> {
    first_where(cols, |c: ColumnView| ascii_lower(c.name) == "level"@)
}

/// The keys a level is looked for under when no column is named "level".
pub open spec fn level_keys() -> Seq<Seq<char>> {
    seq!["level"@, "severity"@, "lvl"@]
}

/// The first column with a name.
pub open spec fn column_named(cols: Seq<ColumnView>, name: Seq<char>) -> Option<int> {
    first_where(cols, |c: ColumnView| c.name == name)
}

/// The header row and a row per field of the entry at `idx`, if there
/// is one.
pub open spec fn detail_rows_of(es: Seq<Entry>, idx: usize) -> int {
    1 + if idx < es.len() {
        es[idx as int].fields@.len() as int
    } else {
        0
    }
}

/// The detail cursor held to the rows of the entry at `idx`.
pub open spec fn row_within(row: usize, es: Seq<Entry>, idx: usize) -> usize {
    if row < detail_rows_of(es, idx) - 1 {
        row
    } else {
        (detail_rows_of(es, idx) - 1) as usize
    }
}

/// The field under the detail cursor, with its value as shown; none on
/// the header row.
pub open spec fn detail_field_of(es: Seq<Entry>, idx: usize, row: usize) -> Option<(Seq<char>, Seq<char>)> {
    if row == 0 || idx >= es.len() || row - 1 >= es[idx as int].fields@.len() {
        None
    } else {
        let fs = es[idx as int].fields_view();
        let key = fs[row - 1].0;
        Some(
            (
                key,
                match field_of(fs, key) {
                    Some(v) => value_text(v),
                    None => Seq::empty(),
                },
            ),
        )
    }
}

/// The field names of an entry, in order.
pub open spec fn keys_of(e: Entry) -> Seq<Seq<char>> {
    e.fields_view().map_values(|f: (Seq<char>, FieldView)| f.0)
}

/// A hidden column reading the key it is named after.
pub open spec fn hidden_column(key: Seq<char>) -> ColumnView {
    ColumnView { name: key, from: seq![key], visible: false }
}

/// The columns after meeting `keys`: each key no column is named after
/// yet gets a hidden column of its own, in the order met.
pub open spec fn with_keys(cols: Seq<ColumnView>, keys: Seq<Seq<char>>) -> Seq<ColumnView>
    decreases keys.len(),
{
    if keys.len() == 0 {
        cols
    } else {
        let c = with_keys(cols, keys.drop_last());
        if column_named(c, keys.last()) is Some {
            c
        } else {
            c.push(hidden_column(keys.last()))
        }
    }
}

/// The widths beside `with_keys`: a new column starts at its name's
/// width.
pub open spec fn with_key_widths(cols: Seq<ColumnView>, ws: Seq<usize>, keys: Seq<Seq<char>>) -> Seq<usize>
    decreases keys.len(),
{
    if keys.len() == 0 {
        ws
    } else {
        let c = with_keys(cols, keys.drop_last());
        let w = with_key_widths(cols, ws, keys.drop_last());
        if column_named(c, keys.last()) is Some {
            w
        } else {
            w.push(keys.last().len() as usize)
        }
    }
}

/// Each width grown to what its column shows of the entry, if wider.
pub open spec fn widened(ws: Seq<usize>, cols: Seq<ColumnView>, fs: FieldsView) -> Seq<usize> {
    Seq::new(
        ws.len(),
        |i: int|
            if pick_of(fs, cols[i].from).len() > ws[i] {
                pick_of(fs, cols[i].from).len() as usize
            } else {
                ws[i]
            },
    )
}

/// The columns after appending entries, one after another.
pub open spec fn appended_columns(cols: Seq<ColumnView>, es: Seq<Entry>) -> Seq<ColumnView>
    decreases es.len(),
{
    if es.len() == 0 {
        cols
    } else {
        with_keys(appended_columns(cols, es.drop_last()), keys_of(es.last()))
    }
}

/// The widths after appending entries, one after another.
pub open spec fn appended_widths(cols: Seq<ColumnView>, ws: Seq<usize>, es: Seq<Entry>) -> Seq<usize>
    decreases es.len(),
{
    if es.len() == 0 {
        ws
    } else {
        let c = appended_columns(cols, es.drop_last());
        let w = appended_widths(cols, ws, es.drop_last());
        widened(
            with_key_widths(c, w, keys_of(es.last())),
            with_keys(c, keys_of(es.last())),
            es.last().fields_view(),
        )
    }
}

/// The column at `i` with its visibility flipped.
pub open spec fn toggled(cols: Seq<ColumnState>, i: int) -> Seq<ColumnState> {
    cols.update(i, ColumnState { visible: !cols[i].visible, ..cols[i] })
}

/// The items at `i` and `j` trade places.
pub open spec fn swapped<A>(s: Seq<A>, i: int, j: int) -> Seq<A> {
    s.update(i, s[j]).update(j, s[i])
}

/// `x` held to `lo..=hi`.
pub open spec fn clamp_int(x: int, lo: int, hi: int) -> int {
    if x < lo {
        lo
    } else if x > hi {
        hi
    } else {
        x
    }
}

/// The selection after a filter change: kept when it is still shown,
/// else the first entry shown, if any.
pub open spec fn clamped(d: Seq<usize>, sel: usize) -> usize {
    if d.len() > 0 && position_of(d, sel) is None {
        d[0]
    } else {
        sel
    }
}

/// The selection moved `delta` places among those shown, stopping at
/// either end; a hidden selection moves from the first place.
pub open spec fn moved(d: Seq<usize>, sel: usize, delta: int) -> usize {
    if d.len() == 0 {
        sel
    } else {
        let pos = match position_of(d, sel) {
            Some(p) => p,
            None => 0,
        };
        d[clamp_int(pos + delta, 0, d.len() - 1)]
    }
}

proof fn lemma_with_keys_visible(cols: Seq<ColumnView>, keys: Seq<Seq<char>>, fs: FieldsView)
    ensures
        visible_picks(with_keys(cols, keys), fs) == visible_picks(cols, fs),
    decreases keys.len(),
{
    if keys.len() > 0 {
        lemma_with_keys_visible(cols, keys.drop_last(), fs);
        let c = with_keys(cols, keys.drop_last());
        if column_named(c, keys.last()) is None {
            assert(c.push(hidden_column(keys.last())).drop_last() =~= c);
        }
    }
}

proof fn lemma_with_keys_grows(cols: Seq<ColumnView>, ws: Seq<usize>, keys: Seq<Seq<char>>)
    requires
        ws.len() == cols.len(),
    ensures
        with_key_widths(cols, ws, keys).len() == with_keys(cols, keys).len(),
        with_keys(cols, keys).len() >= cols.len(),
    decreases keys.len(),
{
    if keys.len() > 0 {
        lemma_with_keys_grows(cols, ws, keys.drop_last());
    }
}

proof fn lemma_matching_prefix(es: Seq<Entry>, e: Entry, cols: Seq<ColumnView>, filter: Seq<char>, n: int)
    requires
        0 <= n <= es.len(),
    ensures
        matching(es.push(e), cols, filter, n) == matching(es, cols, filter, n),
    decreases n,
{
    if n > 0 {
        lemma_matching_prefix(es, e, cols, filter, n - 1);
        assert(es.push(e)[n - 1] == es[n - 1]);
    }
}

proof fn lemma_matching_same_picks(es: Seq<Entry>, a: Seq<ColumnView>, b: Seq<ColumnView>, filter: Seq<char>, n: int)
    requires
        forall|fs: FieldsView| #[trigger] visible_picks(b, fs) == visible_picks(a, fs),
    ensures
        matching(es, b, filter, n) == matching(es, a, filter, n),
    decreases n,
{
    if n > 0 {
        lemma_matching_same_picks(es, a, b, filter, n - 1);
        assert(visible_picks(b, es[n - 1].fields_view()) == visible_picks(a, es[n - 1].fields_view()));
    }
}

/// The viewer's state.
pub struct App {
    pub entries: Vec<Entry>,
    pub source_label: String,
    pub columns: Vec<ColumnState>,
    pub selected: usize,
    pub view: ViewMode,
    pub follow: bool,
    pub detail: DetailState,
    pub fields_menu: FieldsMenuState,
    pub status_msg: Option<String>,
    pub should_quit: bool,
    /// The fuzzy filter; empty for none.
    pub filter_text: String,
    /// Typed characters go to the filter.
    pub filtering: bool,
    /// A field whose value picks a row's colour.
    pub color_by_field: Option<String>,
    /// Rows in the list on the last draw, the page for page keys.
    pub list_page_size: usize,
    /// The positions of the entries that pass the filter, ascending; kept
    /// only while there is a filter.
    pub filtered: Option<Vec<usize>>,
    /// Per column, the widest content seen, header included.
    pub column_max_widths: Vec<usize>,
}

impl App {
    /// What the viewer shows, by position.
    pub open spec fn shown(&self) -> Seq<usize> {
        shown_of(self.entries@, column_views(self.columns@), self.filter_text@)
    }

    /// The filter's cache holds exactly the entries that pass the filter,
    /// and is there only while there is a filter.
    pub open spec fn cache_ok(&self) -> bool {
        match self.filtered {
            None => self.filter_text@.len() == 0,
            Some(v) => self.filter_text@.len() > 0 && v@ == self.shown(),
        }
    }

    /// The widths run beside the columns, the menu's cursor is on a
    /// column (or at 0), and no entry has more fields than can be counted
    /// with the header row.
    pub open spec fn shape_ok(&self) -> bool {
        &&& self.column_max_widths@.len() == self.columns@.len()
        &&& (self.fields_menu.cursor == 0 || self.fields_menu.cursor < self.columns@.len())
        &&& forall|i: int| 0 <= i < self.entries@.len() ==> (#[trigger] self.entries@[i]).fields@.len() < usize::MAX
    }

    pub open spec fn well_formed(&self) -> bool {
        self.cache_ok() && self.shape_ok()
    }

    /// A viewer over no entries yet, a visible column per configured
    /// field.
    pub fn new(fields: Vec<FieldDef>, color_by_field: Option<String>, source_label: String) -> (r: App)
        ensures
            r.well_formed(),
            r.entries@.len() == 0,
            r.source_label == source_label,
            r.columns@.len() == fields@.len(),
            forall|i: int| 0 <= i < fields@.len() ==> {
                &&& (#[trigger] r.columns@[i]).name == fields@[i].name
                &&& r.columns@[i].visible
                &&& string_views(r.columns@[i].from@) == if fields@[i].from@.len() == 0 {
                    seq![fields@[i].name@]
                } else {
                    string_views(fields@[i].from@)
                }
                &&& r.column_max_widths@[i] == fields@[i].name@.len()
            },
            r.selected == 0,
            r.view == ViewMode::List,
            !r.follow,
            r.detail.row == 0,
            r.fields_menu.cursor == 0,
            r.status_msg is None,
            !r.should_quit,
            r.filter_text@.len() == 0,
            !r.filtering,
            r.color_by_field == color_by_field,
            r.list_page_size == 0,
    {
        let ghost fs = fields@;
        let mut columns: Vec<ColumnState> = Vec::new();
        let mut widths: Vec<usize> = Vec::new();
        let mut rest = fields;
        let n = rest.len();
        let mut i: usize = 0;
        while i < n
            invariant
                i <= n,
                n == fs.len(),
                rest@ == fs.skip(i as int),
                columns@.len() == i,
                widths@.len() == i,
                forall|j: int| 0 <= j < i ==> {
                    &&& (#[trigger] columns@[j]).name == fs[j].name
                    &&& columns@[j].visible
                    &&& string_views(columns@[j].from@) == if fs[j].from@.len() == 0 {
                        seq![fs[j].name@]
                    } else {
                        string_views(fs[j].from@)
                    }
                    &&& widths@[j] == fs[j].name@.len()
                },
            decreases n - i,
        {
            let f = rest.remove(0);
            assert(f == fs[i as int]);
            assert(rest@ =~= fs.skip(i + 1));
            let w = chars_of(f.name.as_str()).len();
            columns.push(ColumnState::from_field(f));
            widths.push(w);
            i = i + 1;
        }
        App {
            entries: Vec::new(),
            source_label,
            columns,
            selected: 0,
            view: ViewMode::List,
            follow: false,
            detail: DetailState { row: 0 },
            fields_menu: FieldsMenuState { cursor: 0 },
            status_msg: None,
            should_quit: false,
            filter_text: String::new(),
            filtering: false,
            color_by_field,
            list_page_size: 0,
            filtered: None,
            column_max_widths: widths,
        }
    }

    /// The space-separated values of the visible columns for an entry.
    fn haystack(columns: &Vec<ColumnState>, entry: &Entry) -> (r: String)
        ensures
            r@ == haystack_of(column_views(columns@), entry.fields_view()),
    {
        let ghost cs = column_views(columns@);
        let mut parts: Vec<Vec<char>> = Vec::new();
        let mut i: usize = 0;
        assert(cs.take(0) =~= Seq::<ColumnView>::empty());
        while i < columns.len()
            invariant
                i <= columns@.len(),
                cs == column_views(columns@),
                views(parts@) =~= visible_picks(cs.take(i as int), entry.fields_view()),
            decreases columns.len() - i,
        {
            assert(cs.take(i + 1).drop_last() =~= cs.take(i as int));
            assert(cs.take(i + 1).last() == columns@[i as int]@);
            if columns[i].visible {
                let v = entry.pick(&columns[i].from);
                let ghost before = parts@;
                parts.push(chars_of(v.as_str()));
                assert(views(parts@) =~= views(before).push(v@));
            }
            i = i + 1;
        }
        assert(cs.take(i as int) =~= cs);
        let out = join_first(&parts, parts.len(), " ");
        assert(views(parts@).take(parts@.len() as int) =~= views(parts@));
        string_of(&out)
    }

    /// The positions of every entry that passes the filter.
    fn compute_filtered(&self) -> (r: Vec<usize>)
        ensures
            r@ == matching(self.entries@, column_views(self.columns@), self.filter_text@, self.entries@.len() as int),
    {
        let mut v: Vec<usize> = Vec::new();
        let mut i: usize = 0;
        while i < self.entries.len()
            invariant
                i <= self.entries@.len(),
                v@ == matching(self.entries@, column_views(self.columns@), self.filter_text@, i as int),
            decreases self.entries.len() - i,
        {
            let hay = App::haystack(&self.columns, &self.entries[i]);
            if fuzzy_match(self.filter_text.as_str(), hay.as_str()) {
                v.push(i);
            }
            i = i + 1;
        }
        v
    }

    /// How many entries are shown.
    pub fn displayed_count(&self) -> (r: usize)
        requires
            self.well_formed(),
        ensures
            r == self.shown().len(),
    {
        match &self.filtered {
            Some(v) => v.len(),
            None => self.entries.len(),
        }
    }

    /// The entry shown at a position.
    pub fn displayed_at(&self, pos: usize) -> (r: Option<usize>)
        requires
            self.well_formed(),
        ensures
            r == if pos < self.shown().len() {
                Some(self.shown()[pos as int])
            } else {
                None::<usize>
            },
    {
        match &self.filtered {
            Some(v) => if pos < v.len() {
                Some(v[pos])
            } else {
                None
            },
            None => if pos < self.entries.len() {
                Some(pos)
            } else {
                None
            },
        }
    }

    /// Where an entry is among those shown, if it is shown.
    pub fn position_in_displayed(&self, entry_idx: usize) -> (r: Option<usize>)
        requires
            self.well_formed(),
        ensures
            match r {
                Some(p) => position_of(self.shown(), entry_idx) == Some(p as int),
                None => position_of(self.shown(), entry_idx) is None,
            },
    {
        match &self.filtered {
            Some(v) => {
                let count = self.entries.len();
                proof {
                    lemma_matching(self.entries@, column_views(self.columns@), self.filter_text@, self.entries@.len() as int);
                }
                let ghost d = v@;
                assert(d == self.shown());
                let mut lo: usize = 0;
                let mut hi: usize = v.len();
                while lo < hi
                    invariant
                        d == v@,
                        d == self.shown(),
                        lo <= hi <= d.len(),
                        forall|k: int, l: int| 0 <= k < l < d.len() ==> d[k] < d[l],
                        forall|q: int| 0 <= q < lo ==> d[q] < entry_idx,
                        forall|q: int| hi <= q < d.len() ==> d[q] > entry_idx,
                    decreases hi - lo,
                {
                    let mid = lo + (hi - lo) / 2;
                    if v[mid] == entry_idx {
                        proof {
                            assert forall|q: int| 0 <= q < mid implies d[q] != entry_idx by {
                                assert(d[q] < d[mid as int]);
                            }
                            lemma_position_at(d, entry_idx, mid as int);
                            assert(position_of(self.shown(), entry_idx) == Some(mid as int));
                        }
                        return Some(mid);
                    } else if v[mid] < entry_idx {
                        lo = mid + 1;
                    } else {
                        hi = mid;
                    }
                }
                proof {
                    lemma_position_none(d, entry_idx);
                }
                None
            },
            None => {
                if entry_idx < self.entries.len() {
                    proof {
                        lemma_position_at(self.shown(), entry_idx, entry_idx as int);
                    }
                    Some(entry_idx)
                } else {
                    proof {
                        lemma_position_none(self.shown(), entry_idx);
                    }
                    None
                }
            },
        }
    }

    pub fn first_displayed(&self) -> (r: Option<usize>)
        requires
            self.well_formed(),
        ensures
            r == if self.shown().len() > 0 {
                Some(self.shown()[0])
            } else {
                None::<usize>
            },
    {
        self.displayed_at(0)
    }

    pub fn last_displayed(&self) -> (r: Option<usize>)
        requires
            self.well_formed(),
        ensures
            r == if self.shown().len() > 0 {
                Some(self.shown()[self.shown().len() - 1])
            } else {
                None::<usize>
            },
    {
        let n = self.displayed_count();
        if n == 0 {
            None
        } else {
            self.displayed_at(n - 1)
        }
    }

    /// Where the selection is among those shown; 0 when it is hidden.
    pub fn cursor_in_filtered(&self) -> (r: usize)
        requires
            self.well_formed(),
        ensures
            r == match position_of(self.shown(), self.selected) {
                Some(p) => p as usize,
                None => 0,
            },
    {
        match self.position_in_displayed(self.selected) {
            Some(p) => p,
            None => 0,
        }
    }

    /// The positions shown, written out.
    pub fn filtered_indices(&self) -> (r: Vec<usize>)
        requires
            self.well_formed(),
        ensures
            r@ == self.shown(),
    {
        match &self.filtered {
            Some(v) => {
                let mut out: Vec<usize> = Vec::new();
                let mut i: usize = 0;
                while i < v.len()
                    invariant
                        i <= v@.len(),
                        out@ == v@.take(i as int),
                    decreases v.len() - i,
                {
                    out.push(v[i]);
                    i = i + 1;
                    assert(out@ =~= v@.take(i as int));
                }
                assert(v@.take(i as int) =~= v@);
                out
            },
            None => {
                let mut out: Vec<usize> = Vec::new();
                let mut i: usize = 0;
                while i < self.entries.len()
                    invariant
                        i <= self.entries@.len(),
                        out@ =~= Seq::new(i as nat, |k: int| k as usize),
                    decreases self.entries.len() - i,
                {
                    out.push(i);
                    i = i + 1;
                }
                out
            },
        }
    }
}


/// The entries, the columns and their widths, and the settings are the
/// same.
pub open spec fn keeps_model(a: &App, b: &App) -> bool {
    &&& a.entries@ == b.entries@
    &&& a.source_label@ == b.source_label@
    &&& a.columns@ == b.columns@
    &&& a.column_max_widths@ == b.column_max_widths@
    &&& a.color_by_field == b.color_by_field
    &&& a.list_page_size == b.list_page_size
}

/// The view, its cursors, the status line and the input mode are the same.
pub open spec fn keeps_ui(a: &App, b: &App) -> bool {
    &&& a.view == b.view
    &&& a.detail == b.detail
    &&& a.fields_menu == b.fields_menu
    &&& a.status_msg == b.status_msg
    &&& a.should_quit == b.should_quit
    &&& a.filtering == b.filtering
}

/// The filter and its cache are the same.
pub open spec fn keeps_filter(a: &App, b: &App) -> bool {
    a.filter_text@ == b.filter_text@ && a.filtered == b.filtered
}

impl App {
    /// Moves the selection `delta` places among the entries shown and
    /// stops following.
    fn move_in_filtered(&mut self, delta: isize)
        requires
            old(self).well_formed(),
        ensures
            final(self).well_formed(),
            keeps_model(old(self), final(self)),
            keeps_ui(old(self), final(self)),
            keeps_filter(old(self), final(self)),
            !final(self).follow,
            final(self).selected == moved(old(self).shown(), old(self).selected, delta as int),
    {
        self.follow = false;
        let n = self.displayed_count();
        if n == 0 {
            return;
        }
        let pos = self.cursor_in_filtered();
        proof {
            lemma_position_bound(self.shown(), self.selected);
        }
        let want: i128 = pos as i128 + delta as i128;
        let top: i128 = (n - 1) as i128;
        let next: usize = if want < 0 {
            0
        } else if want > top {
            n - 1
        } else {
            want as usize
        };
        match self.displayed_at(next) {
            Some(idx) => {
                self.selected = idx;
            },
            None => {},
        }
    }

    pub fn move_down(&mut self)
        requires
            old(self).well_formed(),
        ensures
            final(self).well_formed(),
            keeps_model(old(self), final(self)),
            keeps_ui(old(self), final(self)),
            keeps_filter(old(self), final(self)),
            !final(self).follow,
            final(self).selected == moved(old(self).shown(), old(self).selected, 1),
    {
        self.move_in_filtered(1);
    }

    pub fn move_up(&mut self)
        requires
            old(self).well_formed(),
        ensures
            final(self).well_formed(),
            keeps_model(old(self), final(self)),
            keeps_ui(old(self), final(self)),
            keeps_filter(old(self), final(self)),
            !final(self).follow,
            final(self).selected == moved(old(self).shown(), old(self).selected, -1),
    {
        self.move_in_filtered(-1);
    }

    /// Moves a page of the last-drawn list height (at least one row) in
    /// `direction`.
    pub fn move_page(&mut self, direction: isize)
        requires
            old(self).well_formed(),
            old(self).list_page_size <= isize::MAX,
            isize::MIN <= direction * (if old(self).list_page_size > 1 {
                old(self).list_page_size as int
            } else {
                1
            }) <= isize::MAX,
        ensures
            final(self).well_formed(),
            keeps_model(old(self), final(self)),
            keeps_ui(old(self), final(self)),
            keeps_filter(old(self), final(self)),
            !final(self).follow,
            final(self).selected == moved(
                old(self).shown(),
                old(self).selected,
                direction * (if old(self).list_page_size > 1 {
                    old(self).list_page_size as int
                } else {
                    1
                }),
            ),
    {
        let page: isize = if self.list_page_size > 1 {
            self.list_page_size as isize
        } else {
            1
        };
        self.move_in_filtered(direction * page);
    }

    /// Selects the first entry shown and stops following.
    pub fn jump_top(&mut self)
        requires
            old(self).well_formed(),
        ensures
            final(self).well_formed(),
            keeps_model(old(self), final(self)),
            keeps_ui(old(self), final(self)),
            keeps_filter(old(self), final(self)),
            !final(self).follow,
            final(self).selected == if old(self).shown().len() > 0 {
                old(self).shown()[0]
            } else {
                old(self).selected
            },
    {
        self.follow = false;
        match self.first_displayed() {
            Some(first) => {
                self.selected = first;
            },
            None => {},
        }
    }

    /// Selects the last entry shown and stops following.
    pub fn jump_bottom(&mut self)
        requires
            old(self).well_formed(),
        ensures
            final(self).well_formed(),
            keeps_model(old(self), final(self)),
            keeps_ui(old(self), final(self)),
            keeps_filter(old(self), final(self)),
            !final(self).follow,
            final(self).selected == if old(self).shown().len() > 0 {
                old(self).shown().last()
            } else {
                old(self).selected
            },
    {
        self.follow = false;
        match self.last_displayed() {
            Some(last) => {
                self.selected = last;
            },
            None => {},
        }
    }

    /// Turns following on or off; turning it on selects the last entry
    /// shown.
    pub fn toggle_follow(&mut self)
        requires
            old(self).well_formed(),
        ensures
            final(self).well_formed(),
            keeps_model(old(self), final(self)),
            keeps_ui(old(self), final(self)),
            keeps_filter(old(self), final(self)),
            final(self).follow == !old(self).follow,
            final(self).selected == if !old(self).follow && old(self).shown().len() > 0 {
                old(self).shown().last()
            } else {
                old(self).selected
            },
    {
        self.follow = !self.follow;
        if self.follow {
            match self.last_displayed() {
                Some(last) => {
                    self.selected = last;
                },
                None => {},
            }
        }
    }

    pub fn enter_filter(&mut self)
        ensures
            *final(self) == (App { filtering: true, ..*old(self) }),
    {
        self.filtering = true;
    }

    pub fn exit_filter(&mut self)
        ensures
            *final(self) == (App { filtering: false, ..*old(self) }),
    {
        self.filtering = false;
    }

    /// Keeps the selection on an entry that is shown, when any is.
    fn clamp_selection_to_displayed(&mut self)
        requires
            old(self).well_formed(),
        ensures
            *final(self) == (App { selected: clamped(old(self).shown(), old(self).selected), ..*old(self) }),
    {
        if self.displayed_count() == 0 {
            return;
        }
        if self.position_in_displayed(self.selected).is_none() {
            match self.first_displayed() {
                Some(first) => {
                    self.selected = first;
                },
                None => {},
            }
        }
    }

    /// Rebuilds the filter's cache after the filter or the columns
    /// changed, and keeps the selection shown.
    fn refresh_filter(&mut self)
        requires
            old(self).shape_ok(),
        ensures
            final(self).well_formed(),
            keeps_model(old(self), final(self)),
            keeps_ui(old(self), final(self)),
            final(self).filter_text@ == old(self).filter_text@,
            final(self).follow == old(self).follow,
            final(self).selected == clamped(old(self).shown(), old(self).selected),
    {
        if self.filter_text.as_str().is_empty() {
            self.filtered = None;
        } else {
            let v = self.compute_filtered();
            self.filtered = Some(v);
        }
        self.clamp_selection_to_displayed();
    }

    /// Types a character into the filter.
    pub fn filter_push(&mut self, c: char)
        requires
            old(self).well_formed(),
        ensures
            final(self).well_formed(),
            keeps_model(old(self), final(self)),
            keeps_ui(old(self), final(self)),
            final(self).filter_text@ == old(self).filter_text@.push(c),
            final(self).follow == old(self).follow,
            final(self).selected == clamped(final(self).shown(), old(self).selected),
    {
        let mut cs = chars_of(self.filter_text.as_str());
        cs.push(c);
        self.filter_text = string_of(&cs);
        self.refresh_filter();
    }

    /// Takes the last character off the filter.
    pub fn filter_backspace(&mut self)
        requires
            old(self).well_formed(),
        ensures
            final(self).well_formed(),
            keeps_model(old(self), final(self)),
            keeps_ui(old(self), final(self)),
            final(self).filter_text@ == if old(self).filter_text@.len() > 0 {
                old(self).filter_text@.drop_last()
            } else {
                old(self).filter_text@
            },
            final(self).follow == old(self).follow,
            final(self).selected == clamped(final(self).shown(), old(self).selected),
    {
        let mut cs = chars_of(self.filter_text.as_str());
        if cs.len() > 0 {
            cs.pop();
        }
        self.filter_text = string_of(&cs);
        self.refresh_filter();
    }

    /// Empties the filter and leaves filter input.
    pub fn filter_clear(&mut self)
        requires
            old(self).well_formed(),
        ensures
            final(self).well_formed(),
            final(self).entries@ == old(self).entries@,
            final(self).columns@ == old(self).columns@,
            final(self).column_max_widths@ == old(self).column_max_widths@,
            final(self).view == old(self).view,
            final(self).detail == old(self).detail,
            final(self).fields_menu == old(self).fields_menu,
            final(self).follow == old(self).follow,
            final(self).filter_text@.len() == 0,
            final(self).filtered is None,
            !final(self).filtering,
            final(self).selected == clamped(final(self).shown(), old(self).selected),
    {
        self.filter_text = String::new();
        self.filtering = false;
        self.refresh_filter();
    }

    /// Drops the last word of the filter, with the whitespace after it.
    pub fn filter_kill_word(&mut self)
        requires
            old(self).well_formed(),
        ensures
            final(self).well_formed(),
            keeps_model(old(self), final(self)),
            keeps_ui(old(self), final(self)),
            final(self).filter_text@ == old(self).filter_text@.take(
                word_start(old(self).filter_text@, old(self).filter_text@.len() as int),
            ),
            final(self).follow == old(self).follow,
            final(self).selected == clamped(final(self).shown(), old(self).selected),
    {
        let ghost text = self.filter_text@;
        let len = self.filter_text.as_str().as_bytes().len();
        assert(len == utf8_len(text));
        assert(text.take(text.len() as int) =~= text);
        let (next, _) = kill_word_left(self.filter_text.as_str(), len);
        proof {
            let k = choose|k: int|
                {
                    &&& 0 <= k <= text.len()
                    &&& #[trigger] utf8_len(text.take(k)) == utf8_len(text)
                    &&& next@ == text.take(word_start(text, k)) + text.skip(k)
                };
            if k < text.len() {
                lemma_utf8_len_grows(text, k, text.len() as int);
            }
            assert(k == text.len());
            lemma_word_start_bound(text, k);
            assert(text.skip(k) =~= Seq::<char>::empty());
            assert(next@ =~= text.take(word_start(text, k)));
        }
        self.filter_text = next;
        self.refresh_filter();
    }

    /// Sets the filter.
    pub fn set_filter(&mut self, text: String)
        requires
            old(self).well_formed(),
        ensures
            final(self).well_formed(),
            keeps_model(old(self), final(self)),
            keeps_ui(old(self), final(self)),
            final(self).filter_text@ == text@,
            final(self).follow == old(self).follow,
            final(self).selected == clamped(final(self).shown(), old(self).selected),
    {
        self.filter_text = text;
        self.refresh_filter();
    }
}


impl App {
    /// The visible columns, in order.
    pub fn visible_columns(&self) -> (r: Vec<&ColumnState>)
        ensures
            r@.len() == visible_positions(column_views(self.columns@)).len(),
            forall|i: int|
                0 <= i < r@.len() ==> *(#[trigger] r@[i]) == self.columns@[visible_positions(
                    column_views(self.columns@),
                )[i]],
    {
        let ghost cs = column_views(self.columns@);
        let mut out: Vec<&ColumnState> = Vec::new();
        let mut i: usize = 0;
        assert(cs.take(0) =~= Seq::<ColumnView>::empty());
        while i < self.columns.len()
            invariant
                i <= self.columns@.len(),
                cs == column_views(self.columns@),
                out@.len() == visible_positions(cs.take(i as int)).len(),
                forall|k: int|
                    0 <= k < out@.len() ==> *(#[trigger] out@[k]) == self.columns@[visible_positions(
                        cs.take(i as int),
                    )[k]],
            decreases self.columns.len() - i,
        {
            assert(cs.take(i + 1).drop_last() =~= cs.take(i as int));
            assert(cs.take(i + 1).last() == self.columns@[i as int]@);
            if self.columns[i].visible {
                out.push(&self.columns[i]);
            }
            i = i + 1;
        }
        assert(cs.take(i as int) =~= cs);
        out
    }

    /// What each visible column shows of an entry, in order.
    pub fn row_cells(&self, entry: &Entry) -> (r: Vec<String>)
        ensures
            string_views(r@) == visible_picks(column_views(self.columns@), entry.fields_view()),
    {
        let ghost cs = column_views(self.columns@);
        let mut out: Vec<String> = Vec::new();
        let mut i: usize = 0;
        assert(cs.take(0) =~= Seq::<ColumnView>::empty());
        while i < self.columns.len()
            invariant
                i <= self.columns@.len(),
                cs == column_views(self.columns@),
                string_views(out@) =~= visible_picks(cs.take(i as int), entry.fields_view()),
            decreases self.columns.len() - i,
        {
            assert(cs.take(i + 1).drop_last() =~= cs.take(i as int));
            assert(cs.take(i + 1).last() == self.columns@[i as int]@);
            if self.columns[i].visible {
                let v = entry.pick(&self.columns[i].from);
                let ghost before = out@;
                out.push(v);
                assert(string_views(out@) =~= string_views(before).push(out@.last()@));
            }
            i = i + 1;
        }
        assert(cs.take(i as int) =~= cs);
        out
    }

    /// The widest content seen of each visible column, in order.
    pub fn visible_widths(&self) -> (r: Vec<usize>)
        requires
            self.shape_ok(),
        ensures
            r@.len() == visible_positions(column_views(self.columns@)).len(),
            forall|i: int|
                0 <= i < r@.len() ==> #[trigger] r@[i] == self.column_max_widths@[visible_positions(
                    column_views(self.columns@),
                )[i]],
    {
        let ghost cs = column_views(self.columns@);
        let mut out: Vec<usize> = Vec::new();
        let mut i: usize = 0;
        assert(cs.take(0) =~= Seq::<ColumnView>::empty());
        while i < self.columns.len()
            invariant
                i <= self.columns@.len(),
                self.column_max_widths@.len() == self.columns@.len(),
                cs == column_views(self.columns@),
                out@.len() == visible_positions(cs.take(i as int)).len(),
                forall|k: int|
                    0 <= k < out@.len() ==> #[trigger] out@[k] == self.column_max_widths@[visible_positions(
                        cs.take(i as int),
                    )[k]],
            decreases self.columns.len() - i,
        {
            assert(cs.take(i + 1).drop_last() =~= cs.take(i as int));
            assert(cs.take(i + 1).last() == self.columns@[i as int]@);
            if self.columns[i].visible {
                out.push(self.column_max_widths[i]);
            }
            i = i + 1;
        }
        assert(cs.take(i as int) =~= cs);
        out
    }

    /// The selected entry, if there is one.
    pub fn selected_entry(&self) -> (r: Option<&Entry>)
        ensures
            r == if self.selected < self.entries@.len() {
                Some(&self.entries@[self.selected as int])
            } else {
                None::<&Entry>
            },
    {
        if self.selected < self.entries.len() {
            Some(&self.entries[self.selected])
        } else {
            None
        }
    }

    /// Opens the selected entry at its header row, when there are entries.
    pub fn open_detail(&mut self)
        ensures
            *final(self) == if old(self).entries@.len() > 0 {
                App { view: ViewMode::Detail, detail: DetailState { row: 0 }, ..*old(self) }
            } else {
                *old(self)
            },
    {
        if self.entries.len() > 0 {
            self.view = ViewMode::Detail;
            self.detail = DetailState { row: 0 };
        }
    }

    pub fn close_detail(&mut self)
        ensures
            *final(self) == (App { view: ViewMode::List, ..*old(self) }),
    {
        self.view = ViewMode::List;
    }

    /// Opens the menu of fields, its cursor held to the columns.
    pub fn open_fields_menu(&mut self)
        ensures
            *final(self) == (App {
                view: ViewMode::FieldsMenu,
                fields_menu: FieldsMenuState {
                    cursor: if old(self).fields_menu.cursor >= old(self).columns@.len() {
                        if old(self).columns@.len() > 0 {
                            (old(self).columns@.len() - 1) as usize
                        } else {
                            0
                        }
                    } else {
                        old(self).fields_menu.cursor
                    },
                },
                ..*old(self)
            }),
    {
        self.view = ViewMode::FieldsMenu;
        if self.fields_menu.cursor >= self.columns.len() {
            self.fields_menu.cursor = if self.columns.len() > 0 {
                self.columns.len() - 1
            } else {
                0
            };
        }
    }

    /// Back to the list, from the menu of fields only.
    pub fn close_fields_menu(&mut self)
        ensures
            *final(self) == (App {
                view: if old(self).view == ViewMode::FieldsMenu {
                    ViewMode::List
                } else {
                    old(self).view
                },
                ..*old(self)
            }),
    {
        self.view = if self.view == ViewMode::FieldsMenu {
            ViewMode::List
        } else {
            self.view
        };
    }

    /// The rows of the detail view: the header and one per field of the
    /// selected entry.
    pub fn detail_rows(&self) -> (r: usize)
        requires
            self.shape_ok(),
        ensures
            r == detail_rows_of(self.entries@, self.selected),
    {
        match self.selected_entry() {
            Some(e) => 1 + e.fields.len(),
            None => 1,
        }
    }

    pub fn detail_move_down(&mut self)
        requires
            old(self).shape_ok(),
        ensures
            *final(self) == (App {
                detail: DetailState {
                    row: if old(self).detail.row < detail_rows_of(old(self).entries@, old(self).selected) - 1 {
                        (old(self).detail.row + 1) as usize
                    } else {
                        old(self).detail.row
                    },
                },
                ..*old(self)
            }),
    {
        let max = self.detail_rows() - 1;
        if self.detail.row < max {
            self.detail.row = self.detail.row + 1;
        }
    }

    pub fn detail_move_up(&mut self)
        ensures
            *final(self) == (App {
                detail: DetailState {
                    row: if old(self).detail.row > 0 {
                        (old(self).detail.row - 1) as usize
                    } else {
                        0
                    },
                },
                ..*old(self)
            }),
    {
        if self.detail.row > 0 {
            self.detail.row = self.detail.row - 1;
        }
    }

    /// Shows the next entry shown in the list, the cursor held to its rows.
    pub fn detail_next_entry(&mut self)
        requires
            old(self).well_formed(),
        ensures
            *final(self) == match position_of(old(self).shown(), old(self).selected) {
                Some(p) => if p + 1 < old(self).shown().len() {
                    App {
                        selected: old(self).shown()[p + 1],
                        detail: DetailState {
                            row: row_within(
                                old(self).detail.row,
                                old(self).entries@,
                                old(self).shown()[p + 1],
                            ),
                        },
                        ..*old(self)
                    }
                } else {
                    *old(self)
                },
                None => *old(self),
            },
    {
        proof {
            lemma_position_bound(self.shown(), self.selected);
        }
        let n = self.displayed_count();
        match self.position_in_displayed(self.selected) {
            Some(pos) => {
                match self.displayed_at(pos + 1) {
                    Some(next) => {
                        self.selected = next;
                        let rows = self.detail_rows();
                        if self.detail.row > rows - 1 {
                            self.detail.row = rows - 1;
                        }
                    },
                    None => {},
                }
            },
            None => {},
        }
    }

    /// Shows the previous entry shown in the list, the cursor held to its
    /// rows.
    pub fn detail_prev_entry(&mut self)
        requires
            old(self).well_formed(),
        ensures
            *final(self) == match position_of(old(self).shown(), old(self).selected) {
                Some(p) => if p > 0 {
                    App {
                        selected: old(self).shown()[p - 1],
                        detail: DetailState {
                            row: row_within(
                                old(self).detail.row,
                                old(self).entries@,
                                old(self).shown()[p - 1],
                            ),
                        },
                        ..*old(self)
                    }
                } else {
                    *old(self)
                },
                None => *old(self),
            },
    {
        proof {
            lemma_position_bound(self.shown(), self.selected);
        }
        match self.position_in_displayed(self.selected) {
            Some(pos) => {
                if pos > 0 {
                    match self.displayed_at(pos - 1) {
                        Some(prev) => {
                            self.selected = prev;
                            let rows = self.detail_rows();
                            if self.detail.row > rows - 1 {
                                self.detail.row = rows - 1;
                            }
                        },
                        None => {},
                    }
                }
            },
            None => {},
        }
    }

    /// The field under the detail cursor and its value as shown; none on
    /// the header row.
    pub fn detail_field(&self) -> (r: Option<(String, String)>)
        ensures
            match r {
                Some(kv) => detail_field_of(self.entries@, self.selected, self.detail.row) == Some(
                    (kv.0@, kv.1@),
                ),
                None => detail_field_of(self.entries@, self.selected, self.detail.row) is None,
            },
    {
        if self.detail.row == 0 {
            return None;
        }
        match self.selected_entry() {
            None => None,
            Some(entry) => {
                let keys = entry.keys();
                let i = self.detail.row - 1;
                let ghost fs = entry.fields_view();
                assert(string_views(keys@).len() == keys@.len());
                assert(fs.len() == entry.fields@.len());
                if i < keys.len() {
                    proof {
                        assert(string_views(keys@)[i as int] == keys@[i as int]@);
                        assert(fs.map_values(|f: (Seq<char>, FieldView)| f.0)[i as int] == fs[i as int].0);
                    }
                    let key = copy_string(&keys[i]);
                    let value = match entry.get_str(key.as_str()) {
                        Some(v) => v,
                        None => String::new(),
                    };
                    Some((key, value))
                } else {
                    None
                }
            },
        }
    }

    pub fn quit(&mut self)
        ensures
            *final(self) == (App { should_quit: true, ..*old(self) }),
    {
        self.should_quit = true;
    }

    pub fn set_status(&mut self, msg: String)
        ensures
            *final(self) == (App { status_msg: Some(msg), ..*old(self) }),
    {
        self.status_msg = Some(msg);
    }

    /// An entry's level: from the column named "level" (in any case) when
    /// there is one, else from the usual keys.
    pub fn level_for(&self, entry: &Entry) -> (r: String)
        ensures
            r@ == match level_column(column_views(self.columns@)) {
                Some(i) => pick_of(entry.fields_view(), column_views(self.columns@)[i].from),
                None => pick_of(entry.fields_view(), level_keys()),
            },
    {
        let ghost cs = column_views(self.columns@);
        let ghost p = |c: ColumnView| ascii_lower(c.name) == "level"@;
        let level = chars_of("level");
        let mut i: usize = 0;
        while i < self.columns.len()
            invariant
                i <= self.columns@.len(),
                cs == column_views(self.columns@),
                level@ == "level"@,
                p == (|c: ColumnView| ascii_lower(c.name) == "level"@),
                forall|q: int| 0 <= q < i ==> !p(#[trigger] cs[q]),
            decreases self.columns.len() - i,
        {
            let lower = to_ascii_lower(self.columns[i].name.as_str());
            if chars_eq(&lower, &level) {
                proof {
                    lemma_first_where_at(cs, p, i as int);
                }
                return entry.pick(&self.columns[i].from);
            }
            i = i + 1;
        }
        proof {
            lemma_first_where_none(cs, p);
        }
        let mut keys: Vec<String> = Vec::new();
        keys.push(string_of(&chars_of("level")));
        keys.push(string_of(&chars_of("severity")));
        keys.push(string_of(&chars_of("lvl")));
        assert(string_views(keys@) =~= level_keys());
        entry.pick(&keys)
    }

    /// The value of the field that picks a row's colour, when one is set
    /// and the entry has it with something to show.
    pub fn color_key_for(&self, entry: &Entry) -> (r: Option<String>)
        ensures
            match r {
                Some(s) => self.color_by_field matches Some(k) && field_of(entry.fields_view(), k@) matches Some(
                    v,
                ) && value_text(v).len() > 0 && s@ == value_text(v),
                None => match self.color_by_field {
                    None => true,
                    Some(k) => match field_of(entry.fields_view(), k@) {
                        None => true,
                        Some(v) => value_text(v).len() == 0,
                    },
                },
            },
    {
        match &self.color_by_field {
            None => None,
            Some(key) => match entry.get_str(key.as_str()) {
                None => None,
                Some(v) => if chars_of(v.as_str()).len() == 0 {
                    None
                } else {
                    Some(v)
                },
            },
        }
    }

    /// Moves the menu's cursor `delta` places, stopping at either end.
    pub fn fields_menu_move(&mut self, delta: isize)
        ensures
            *final(self) == (App {
                fields_menu: FieldsMenuState {
                    cursor: if old(self).columns@.len() == 0 {
                        old(self).fields_menu.cursor
                    } else {
                        clamp_int(
                            old(self).fields_menu.cursor + delta,
                            0,
                            old(self).columns@.len() - 1,
                        ) as usize
                    },
                },
                ..*old(self)
            }),
    {
        let len = self.columns.len();
        if len == 0 {
            return;
        }
        let want: i128 = self.fields_menu.cursor as i128 + delta as i128;
        let top: i128 = (len - 1) as i128;
        self.fields_menu.cursor = if want < 0 {
            0
        } else if want > top {
            len - 1
        } else {
            want as usize
        };
    }
}


/// The first column named `name`.
fn find_column(columns: &Vec<ColumnState>, name: &str) -> (r: Option<usize>)
    ensures
        match r {
            Some(i) => column_named(column_views(columns@), name@) == Some(i as int) && i < columns@.len()
                && columns@[i as int].name@ == name@,
            None => column_named(column_views(columns@), name@) is None,
        },
{
    let ghost cs = column_views(columns@);
    let ghost p = |c: ColumnView| c.name == name@;
    let mut i: usize = 0;
    while i < columns.len()
        invariant
            i <= columns@.len(),
            cs == column_views(columns@),
            p == (|c: ColumnView| c.name == name@),
            forall|q: int| 0 <= q < i ==> !p(#[trigger] cs[q]),
        decreases columns.len() - i,
    {
        if crate::text::str_eq(columns[i].name.as_str(), name) {
            proof {
                lemma_first_where_at(cs, p, i as int);
            }
            return Some(i);
        }
        i = i + 1;
    }
    proof {
        lemma_first_where_none(cs, p);
    }
    None
}

/// Trades the items at `i` and `j`.
fn swap_items<T>(v: &mut Vec<T>, i: usize, j: usize)
    requires
        i < old(v)@.len(),
        j < old(v)@.len(),
    ensures
        final(v)@ == swapped(old(v)@, i as int, j as int),
{
    if i == j {
        assert(swapped(v@, i as int, j as int) =~= v@);
        return;
    }
    let (lo, hi) = if i < j {
        (i, j)
    } else {
        (j, i)
    };
    let ghost s = v@;
    let b = v.remove(hi);
    let a = v.remove(lo);
    v.insert(lo, b);
    v.insert(hi, a);
    assert(v@ =~= swapped(s, i as int, j as int));
}

impl App {
    /// Flips the visibility of the column under the menu's cursor.
    pub fn fields_menu_toggle(&mut self)
        requires
            old(self).well_formed(),
        ensures
            old(self).fields_menu.cursor >= old(self).columns@.len() ==> *final(self) == *old(self),
            old(self).fields_menu.cursor < old(self).columns@.len() ==> {
                &&& final(self).well_formed()
                &&& final(self).entries@ == old(self).entries@
                &&& final(self).columns@ == toggled(old(self).columns@, old(self).fields_menu.cursor as int)
                &&& final(self).column_max_widths@ == old(self).column_max_widths@
                &&& keeps_ui(old(self), final(self))
                &&& final(self).filter_text@ == old(self).filter_text@
                &&& final(self).follow == old(self).follow
                &&& final(self).selected == clamped(final(self).shown(), old(self).selected)
            },
    {
        let i = self.fields_menu.cursor;
        if i < self.columns.len() {
            let mut c = self.columns.remove(i);
            c.visible = !c.visible;
            self.columns.insert(i, c);
            assert(self.columns@ =~= toggled(old(self).columns@, i as int));
            self.refresh_filter();
        }
    }

    /// Moves the column under the menu's cursor `delta` places, its width
    /// with it, the cursor following; nothing when that falls outside the
    /// columns.
    pub fn fields_menu_swap(&mut self, delta: isize)
        requires
            old(self).well_formed(),
        ensures
            ({
                let i = old(self).fields_menu.cursor as int;
                let j = i + delta;
                if 0 <= j < old(self).columns@.len() {
                    &&& final(self).well_formed()
                    &&& final(self).entries@ == old(self).entries@
                    &&& final(self).columns@ == swapped(old(self).columns@, i, j)
                    &&& final(self).column_max_widths@ == swapped(old(self).column_max_widths@, i, j)
                    &&& final(self).fields_menu.cursor == j
                    &&& final(self).view == old(self).view
                    &&& final(self).filter_text@ == old(self).filter_text@
                    &&& final(self).follow == old(self).follow
                    &&& final(self).selected == clamped(final(self).shown(), old(self).selected)
                } else {
                    *final(self) == *old(self)
                }
            }),
    {
        let i = self.fields_menu.cursor;
        let j: i128 = i as i128 + delta as i128;
        if j < 0 || j >= self.columns.len() as i128 {
            return;
        }
        let j = j as usize;
        swap_items(&mut self.columns, i, j);
        swap_items(&mut self.column_max_widths, i, j);
        self.fields_menu.cursor = j;
        self.refresh_filter();
    }

    /// Shows or hides the column of the field under the detail cursor; a
    /// field no column is named after gets a visible column of its own.
    pub fn detail_toggle_column(&mut self)
        requires
            old(self).well_formed(),
        ensures
            match detail_field_of(old(self).entries@, old(self).selected, old(self).detail.row) {
                None => *final(self) == *old(self),
                Some(kv) => {
                    &&& final(self).well_formed()
                    &&& final(self).entries@ == old(self).entries@
                    &&& keeps_ui(old(self), final(self))
                    &&& final(self).filter_text@ == old(self).filter_text@
                    &&& final(self).follow == old(self).follow
                    &&& final(self).selected == clamped(final(self).shown(), old(self).selected)
                    &&& match column_named(column_views(old(self).columns@), kv.0) {
                        Some(i) => {
                            &&& final(self).columns@ == toggled(old(self).columns@, i)
                            &&& final(self).column_max_widths@ == old(self).column_max_widths@
                        },
                        None => {
                            &&& column_views(final(self).columns@) == column_views(old(self).columns@).push(
                                ColumnView { name: kv.0, from: seq![kv.0], visible: true },
                            )
                            &&& final(self).columns@.drop_last() == old(self).columns@
                            &&& final(self).column_max_widths@ == old(self).column_max_widths@.push(
                                kv.0.len() as usize,
                            )
                        },
                    }
                },
            },
    {
        let key = match self.detail_field() {
            None => {
                return;
            },
            Some(kv) => kv.0,
        };
        match find_column(&self.columns, key.as_str()) {
            Some(i) => {
                let mut c = self.columns.remove(i);
                c.visible = !c.visible;
                self.columns.insert(i, c);
                assert(self.columns@ =~= toggled(old(self).columns@, i as int));
            },
            None => {
                let w = chars_of(key.as_str()).len();
                let mut from: Vec<String> = Vec::new();
                from.push(copy_string(&key));
                assert(string_views(from@) =~= seq![key@]);
                self.columns.push(ColumnState { name: key, from, visible: true });
                self.column_max_widths.push(w);
                assert(column_views(self.columns@) =~= column_views(old(self).columns@).push(
                    self.columns@.last()@,
                ));
                assert(self.columns@.drop_last() =~= old(self).columns@);
            },
        }
        self.refresh_filter();
    }
}


impl App {
    /// Takes in one entry: its new keys become hidden columns, the widths
    /// grow to what it shows, and the filter's cache takes it when it
    /// passes.
    fn append_one(&mut self, entry: Entry)
        requires
            old(self).well_formed(),
            entry.fields@.len() < usize::MAX,
        ensures
            final(self).well_formed(),
            final(self).entries@ == old(self).entries@.push(entry),
            column_views(final(self).columns@) == with_keys(column_views(old(self).columns@), keys_of(entry)),
            final(self).column_max_widths@ == widened(
                with_key_widths(column_views(old(self).columns@), old(self).column_max_widths@, keys_of(entry)),
                with_keys(column_views(old(self).columns@), keys_of(entry)),
                entry.fields_view(),
            ),
            keeps_ui(old(self), final(self)),
            final(self).filter_text@ == old(self).filter_text@,
            final(self).filtered is Some == old(self).filtered is Some,
            final(self).selected == old(self).selected,
            final(self).follow == old(self).follow,
            final(self).source_label@ == old(self).source_label@,
            final(self).color_by_field == old(self).color_by_field,
            final(self).list_page_size == old(self).list_page_size,
    {
        let ghost cv0 = column_views(self.columns@);
        let ghost ws0 = self.column_max_widths@;
        let ghost fs = entry.fields_view();
        let keys = entry.keys();
        let ghost ks = keys_of(entry);
        assert(string_views(keys@) == ks);
        // New keys become hidden columns.
        let mut k: usize = 0;
        assert(ks.take(0) =~= Seq::<Seq<char>>::empty());
        while k < keys.len()
            invariant
                k <= keys@.len(),
                string_views(keys@) == ks,
                column_views(self.columns@) == with_keys(cv0, ks.take(k as int)),
                self.column_max_widths@ == with_key_widths(cv0, ws0, ks.take(k as int)),
                self.column_max_widths@.len() == self.columns@.len(),
                self.columns@.len() >= cv0.len(),
                self.entries@ == old(self).entries@,
                self.filter_text@ == old(self).filter_text@,
                self.filtered == old(self).filtered,
                keeps_ui(old(self), self),
                self.selected == old(self).selected,
                self.follow == old(self).follow,
                self.source_label@ == old(self).source_label@,
                self.color_by_field == old(self).color_by_field,
                self.list_page_size == old(self).list_page_size,
            decreases keys.len() - k,
        {
            assert(ks.take(k + 1).drop_last() =~= ks.take(k as int));
            assert(ks.take(k + 1).last() == keys@[k as int]@);
            match find_column(&self.columns, keys[k].as_str()) {
                Some(_) => {},
                None => {
                    let name = copy_string(&keys[k]);
                    let w = chars_of(name.as_str()).len();
                    let mut from: Vec<String> = Vec::new();
                    from.push(copy_string(&keys[k]));
                    assert(string_views(from@) =~= seq![keys@[k as int]@]);
                    let ghost before = self.columns@;
                    self.columns.push(ColumnState { name, from, visible: false });
                    self.column_max_widths.push(w);
                    assert(column_views(self.columns@) =~= column_views(before).push(
                        hidden_column(keys@[k as int]@),
                    ));
                },
            }
            k = k + 1;
        }
        assert(ks.take(k as int) =~= ks);
        // Each width grows to what its column shows of the entry.
        let ghost cv1 = column_views(self.columns@);
        let ghost ws1 = self.column_max_widths@;
        let mut i: usize = 0;
        while i < self.columns.len()
            invariant
                i <= self.columns@.len(),
                cv1 == column_views(self.columns@),
                ws1.len() == cv1.len(),
                self.column_max_widths@.len() == ws1.len(),
                forall|q: int| 0 <= q < i ==> #[trigger] self.column_max_widths@[q] == widened(ws1, cv1, fs)[q],
                forall|q: int| i <= q < ws1.len() ==> #[trigger] self.column_max_widths@[q] == ws1[q],
                fs == entry.fields_view(),
                self.columns@.len() >= cv0.len(),
                self.entries@ == old(self).entries@,
                self.filter_text@ == old(self).filter_text@,
                self.filtered == old(self).filtered,
                keeps_ui(old(self), self),
                self.selected == old(self).selected,
                self.follow == old(self).follow,
                self.source_label@ == old(self).source_label@,
                self.color_by_field == old(self).color_by_field,
                self.list_page_size == old(self).list_page_size,
            decreases self.columns.len() - i,
        {
            let v = entry.pick(&self.columns[i].from);
            let w = chars_of(v.as_str()).len();
            if w > self.column_max_widths[i] {
                self.column_max_widths.set(i, w);
            }
            i = i + 1;
        }
        assert(self.column_max_widths@ =~= widened(ws1, cv1, fs));
        // The filter's cache takes the entry when it passes.
        let new_idx = self.entries.len();
        let keep = match &self.filtered {
            Some(_) => {
                let hay = App::haystack(&self.columns, &entry);
                fuzzy_match(self.filter_text.as_str(), hay.as_str())
            },
            None => false,
        };
        let ghost old_cache = self.filtered;
        if keep {
            match &mut self.filtered {
                Some(v) => {
                    v.push(new_idx);
                },
                None => {},
            }
        }
        self.entries.push(entry);
        proof {
            let es0 = old(self).entries@;
            let es1 = self.entries@;
            let f = self.filter_text@;
            assert forall|x: FieldsView| #[trigger] visible_picks(cv1, x) == visible_picks(cv0, x) by {
                lemma_with_keys_visible(cv0, ks, x);
            }
            if old_cache is Some {
                let n = es0.len() as int;
                lemma_matching_same_picks(es1, cv0, cv1, f, n);
                lemma_matching_same_picks(es0, cv0, cv1, f, n);
                lemma_matching_prefix(es0, entry, cv1, f, n);
                assert(es1[n] == entry);
                assert(es1 == es0.push(entry));
            }
            assert forall|q: int| 0 <= q < es1.len() implies (#[trigger] es1[q]).fields@.len() < usize::MAX by {
                if q < es0.len() {
                    assert(es1[q] == es0[q]);
                }
            }
        }
    }

    /// Takes in entries in order. New keys become hidden columns, the
    /// widths grow, the filter's cache takes those that pass; a following
    /// view then selects the last entry shown, and the first entries into
    /// an empty viewer select the first.
    pub fn append_entries(&mut self, incoming: Vec<Entry>)
        requires
            old(self).well_formed(),
            forall|i: int| 0 <= i < incoming@.len() ==> (#[trigger] incoming@[i]).fields@.len() < usize::MAX,
        ensures
            final(self).well_formed(),
            final(self).entries@ == old(self).entries@ + incoming@,
            column_views(final(self).columns@) == appended_columns(column_views(old(self).columns@), incoming@),
            final(self).column_max_widths@ == appended_widths(
                column_views(old(self).columns@),
                old(self).column_max_widths@,
                incoming@,
            ),
            keeps_ui(old(self), final(self)),
            final(self).filter_text@ == old(self).filter_text@,
            final(self).follow == old(self).follow,
            final(self).source_label@ == old(self).source_label@,
            final(self).color_by_field == old(self).color_by_field,
            final(self).list_page_size == old(self).list_page_size,
            final(self).selected == if old(self).follow {
                if final(self).shown().len() > 0 {
                    final(self).shown().last()
                } else {
                    old(self).selected
                }
            } else if old(self).entries@.len() == 0 && incoming@.len() > 0 {
                0
            } else {
                old(self).selected
            },
    {
        let was_empty = self.entries.len() == 0;
        let ghost es = incoming@;
        let ghost cv0 = column_views(self.columns@);
        let ghost ws0 = self.column_max_widths@;
        let n = incoming.len();
        // Reversed, so that popping gives the entries in order.
        let mut rest = incoming;
        let mut stack: Vec<Entry> = Vec::new();
        while rest.len() > 0
            invariant
                rest@ == es.take(rest@.len() as int),
                rest@.len() + stack@.len() == es.len(),
                forall|q: int| 0 <= q < stack@.len() ==> #[trigger] stack@[q] == es[es.len() - 1 - q],
            decreases rest.len(),
        {
            let ghost before = rest@;
            match rest.pop() {
                Some(e) => {
                    stack.push(e);
                },
                None => {},
            }
            assert(rest@ =~= es.take(rest@.len() as int));
        }
        let mut i: usize = 0;
        assert(es.take(0) =~= Seq::<Entry>::empty());
        assert(old(self).entries@ + es.take(0) =~= old(self).entries@);
        while stack.len() > 0
            invariant
                n == es.len(),
                stack@.len() + i == n,
                forall|q: int| 0 <= q < stack@.len() ==> #[trigger] stack@[q] == es[n - 1 - q],
                forall|q: int| 0 <= q < es.len() ==> (#[trigger] es[q]).fields@.len() < usize::MAX,
                self.well_formed(),
                self.entries@ == old(self).entries@ + es.take(i as int),
                column_views(self.columns@) == appended_columns(cv0, es.take(i as int)),
                self.column_max_widths@ == appended_widths(cv0, ws0, es.take(i as int)),
                keeps_ui(old(self), self),
                self.filter_text@ == old(self).filter_text@,
                self.selected == old(self).selected,
                self.follow == old(self).follow,
                self.source_label@ == old(self).source_label@,
                self.color_by_field == old(self).color_by_field,
                self.list_page_size == old(self).list_page_size,
            decreases stack.len(),
        {
            let ghost top = stack@.len() - 1;
            match stack.pop() {
                Some(e) => {
                    assert(e == es[i as int]);
                    assert(es.take(i + 1).drop_last() =~= es.take(i as int));
                    assert(es.take(i + 1).last() == e);
                    assert(old(self).entries@ + es.take(i + 1) =~= (old(self).entries@ + es.take(
                        i as int,
                    )).push(e));
                    self.append_one(e);
                },
                None => {},
            }
            i = i + 1;
        }
        assert(es.take(i as int) =~= es);
        if self.follow {
            match self.last_displayed() {
                Some(last) => {
                    self.selected = last;
                },
                None => {},
            }
        } else if was_empty && self.entries.len() > 0 {
            self.selected = 0;
        }
    }
}


// ---- where the lines come from ----------------------------------------------

/// Where the viewer reads from: a file (its path as text), standard input,
/// or a command's output.
#[derive(Debug, Clone)]
pub enum SourceSpec {
    File(String),
    Stdin,
    Command(Vec<String>),
}

/// An argument that a shell would not take as one word as it stands.
pub open spec fn needs_quotes(a: Seq<char>) -> bool {
    exists|i: int|
        0 <= i < a.len() && (is_ws(#[trigger] a[i]) || a[i] == '\'' || a[i] == '"' || a[i] == '\\' || a[i]
            == '$')
}

/// Each double quote behind a backslash.
pub open spec fn escape_quotes(a: Seq<char>) -> Seq<char>
    decreases a.len(),
{
    if a.len() == 0 {
        Seq::empty()
    } else {
        escape_quotes(a.drop_last()) + if a.last() == '"' {
            seq!['\\', '"']
        } else {
            seq![a.last()]
        }
    }
}

/// An argument as the command line shows it: in double quotes, its own
/// double quotes escaped, when it needs quoting.
pub open spec fn shown_arg(a: Seq<char>) -> Seq<char> {
    if needs_quotes(a) {
        seq!['"'] + escape_quotes(a) + seq!['"']
    } else {
        a
    }
}

/// A command shown after a prompt, its arguments space-separated.
pub open spec fn command_label(argv: Seq<Seq<char>>) -> Seq<char> {
    "$ "@ + joined(argv.map_values(|a: Seq<char>| shown_arg(a)), " "@)
}

pub open spec fn source_label_of(spec: SourceSpec) -> Seq<char> {
    match spec {
        SourceSpec::File(p) => p@,
        SourceSpec::Stdin => "stdin"@,
        SourceSpec::Command(argv) => command_label(string_views(argv@)),
    }
}

fn shown_arg_chars(a: &str) -> (r: Vec<char>)
    ensures
        r@ == shown_arg(a@),
{
    let cs = chars_of(a);
    let mut quote = false;
    let mut escaped: Vec<char> = Vec::new();
    let mut i: usize = 0;
    assert(cs@.take(0) =~= Seq::<char>::empty());
    while i < cs.len()
        invariant
            i <= cs@.len(),
            cs@ == a@,
            escaped@ == escape_quotes(cs@.take(i as int)),
            quote == exists|q: int|
                0 <= q < i && (is_ws(#[trigger] cs@[q]) || cs@[q] == '\'' || cs@[q] == '"' || cs@[q] == '\\'
                    || cs@[q] == '$'),
        decreases cs.len() - i,
    {
        let c = cs[i];
        assert(cs@.take(i + 1).drop_last() =~= cs@.take(i as int));
        assert(cs@.take(i + 1).last() == c);
        if is_whitespace(c) || c == '\'' || c == '"' || c == '\\' || c == '$' {
            quote = true;
        }
        if c == '"' {
            escaped.push('\\');
            escaped.push('"');
        } else {
            escaped.push(c);
        }
        assert(escaped@ =~= escape_quotes(cs@.take(i + 1)));
        i = i + 1;
    }
    assert(cs@.take(i as int) =~= cs@);
    if quote {
        let mut out: Vec<char> = Vec::new();
        out.push('"');
        push_chars(&mut out, &escaped);
        out.push('"');
        assert(out@ =~= seq!['"'] + escape_quotes(a@) + seq!['"']);
        out
    } else {
        proof {
            assert forall|q: int| 0 <= q < a@.len() implies #[trigger] a@[q] != '"' by {
                if is_ws(cs@[q]) {
                }
            }
            lemma_escape_plain(a@);
        }
        escaped
    }
}

proof fn lemma_escape_plain(a: Seq<char>)
    requires
        forall|i: int| 0 <= i < a.len() ==> #[trigger] a[i] != '"',
    ensures
        escape_quotes(a) == a,
    decreases a.len(),
{
    if a.len() > 0 {
        lemma_escape_plain(a.drop_last());
        assert(a.drop_last() + seq![a.last()] =~= a);
    }
}

impl SourceSpec {
    /// What the viewer's title says of the source.
    pub fn label(&self) -> (r: String)
        ensures
            r@ == source_label_of(*self),
    {
        match self {
            SourceSpec::File(p) => string_of(&chars_of(p.as_str())),
            SourceSpec::Stdin => string_of(&chars_of("stdin")),
            SourceSpec::Command(argv) => {
                let ghost want = string_views(argv@).map_values(|a: Seq<char>| shown_arg(a));
                let mut parts: Vec<Vec<char>> = Vec::new();
                let mut i: usize = 0;
                while i < argv.len()
                    invariant
                        i <= argv@.len(),
                        want == string_views(argv@).map_values(|a: Seq<char>| shown_arg(a)),
                        views(parts@) =~= want.take(i as int),
                    decreases argv.len() - i,
                {
                    let ghost before = parts@;
                    parts.push(shown_arg_chars(argv[i].as_str()));
                    assert(views(parts@) =~= views(before).push(want[i as int]));
                    i = i + 1;
                }
                assert(want.take(i as int) =~= want);
                assert(views(parts@).take(parts@.len() as int) =~= views(parts@));
                let mut out = chars_of("$ ");
                let joined_args = join_first(&parts, parts.len(), " ");
                push_chars(&mut out, &joined_args);
                string_of(&out)
            },
        }
    }
}

} // verus!
