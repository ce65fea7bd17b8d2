//! The statement reports: transactions resolved against the merchant
//! tables, narrowed to a window, and laid out as rows — a budget against
//! what happened, totals by category, merchant, month or tag, what no
//! table knew, and the plain listing.

use vstd::prelude::*;

use crate::amount::{amount_text, Amount};
use crate::budget::{Budget, Line, Outcome, Tally};
use crate::marks::date_le;
use crate::matcher::{hit_is, lookup_of, normalize, normalized_text, occurs, occurs_in, Hit, Matcher};
use crate::output::Rows;
use crate::statement::{key_of, string_views, Date, Transaction};
use crate::comments::{compare_text, text_lt};
use crate::statement::{year_text, zero_padded, zero_padded_chars};
use crate::text::{chars_of, decimal, decimal_chars, push_chars, push_str, str_eq, string_of};

verus! {

/// A transaction together with what the tables made of it.
pub struct Resolved {
    pub transaction: Transaction,
    pub hit: Option<Hit>,
}

impl Resolved {
    /// The merchant's name, or nothing when no table knew the descriptor.
    pub fn merchant(&self) -> (r: &str)
        ensures
            r@ == match self.hit {
                Some(h) => h.name@,
                None => Seq::<char>::empty(),
            },
    {
        proof {
            reveal_strlit("");
        }
        match &self.hit {
            Some(h) => h.name.as_str(),
            None => "",
        }
    }

    /// The category, or nothing.
    pub fn category(&self) -> (r: &str)
        ensures
            r@ == match self.hit {
                Some(h) => match h.category {
                    Some(c) => c@,
                    None => Seq::<char>::empty(),
                },
                None => Seq::<char>::empty(),
            },
    {
        proof {
            reveal_strlit("");
        }
        match &self.hit {
            Some(h) => match &h.category {
                Some(c) => c.as_str(),
                None => "",
            },
            None => "",
        }
    }

    /// Whether a table knew the descriptor.
    pub fn is_resolved(&self) -> (r: bool)
        ensures
            r == self.hit is Some,
    {
        self.hit.is_some()
    }
}

/// The statement after the window: what is left, resolved, and how many
/// rows the date and direction filters took out.
pub struct Loaded {
    pub transactions: Vec<Resolved>,
    pub filtered_out: usize,
}

/// Whether a transaction is inside the window: on or after `from`, on or
/// before `to`, money out only with `spending`, else money in only with
/// `income`.
pub open spec fn in_window(
    t: Transaction,
    from: Option<Date>,
    to: Option<Date>,
    spending: bool,
    income: bool,
) -> bool {
    &&& (from matches Some(d) ==> date_le(d, t.booked))
    &&& (to matches Some(d) ==> date_le(t.booked, d))
    &&& if spending {
        t.amount.0 < 0
    } else if income {
        t.amount.0 >= 0
    } else {
        true
    }
}

/// The transactions inside the window, in order.
pub open spec fn window_of(
    ts: Seq<Transaction>,
    from: Option<Date>,
    to: Option<Date>,
    spending: bool,
    income: bool,
) -> Seq<Transaction>
    decreases ts.len(),
{
    if ts.len() == 0 {
        ts
    } else {
        let rest = window_of(ts.drop_last(), from, to, spending, income);
        if in_window(ts.last(), from, to, spending, income) {
            rest.push(ts.last())
        } else {
            rest
        }
    }
}

proof fn lemma_window_len(
    ts: Seq<Transaction>,
    from: Option<Date>,
    to: Option<Date>,
    spending: bool,
    income: bool,
)
    ensures
        window_of(ts, from, to, spending, income).len() <= ts.len(),
    decreases ts.len(),
{
    if ts.len() > 0 {
        lemma_window_len(ts.drop_last(), from, to, spending, income);
    }
}

/// Narrows the transactions to the window and resolves each against the
/// tables, by its descriptor and amount.
pub fn resolve_window(
    transactions: Vec<Transaction>,
    from: Option<Date>,
    to: Option<Date>,
    spending: bool,
    income: bool,
    matcher: &Matcher,
) -> (r: Loaded)
    requires
        matcher.well_formed(),
    ensures
        ({
            let kept = window_of(transactions@, from, to, spending, income);
            &&& r.transactions@.len() == kept.len()
            &&& r.filtered_out == transactions@.len() - kept.len()
            &&& forall|i: int|
                0 <= i < kept.len() ==> {
                    let t = kept[i];
                    &&& (#[trigger] r.transactions@[i]).transaction == t
                    &&& match r.transactions@[i].hit {
                        Some(h) => lookup_of(*matcher, key_of(t.descriptor@), Some(t.amount)) matches Some(
                            (k, via),
                        ) && hit_is(h, *matcher, k, via),
                        None => lookup_of(*matcher, key_of(t.descriptor@), Some(t.amount)) is None,
                    }
                }
        }),
{
    let ghost all = transactions@;
    let total = transactions.len();
    let mut rest = transactions;
    let mut out: Vec<Resolved> = Vec::new();
    let mut i: usize = 0;
    while i < total
        invariant
            i <= total,
            total == all.len(),
            rest@ == all.skip(i as int),
            matcher.well_formed(),
            out@.len() == window_of(all.take(i as int), from, to, spending, income).len(),
            forall|j: int|
                0 <= j < out@.len() ==> {
                    let t = window_of(all.take(i as int), from, to, spending, income)[j];
                    &&& (#[trigger] out@[j]).transaction == t
                    &&& match out@[j].hit {
                        Some(h) => lookup_of(*matcher, key_of(t.descriptor@), Some(t.amount)) matches Some(
                            (k, via),
                        ) && hit_is(h, *matcher, k, via),
                        None => lookup_of(*matcher, key_of(t.descriptor@), Some(t.amount)) is None,
                    }
                },
        decreases total - i,
    {
        assert(all.take(i + 1).drop_last() =~= all.take(i as int));
        let t = rest.remove(0);
        assert(t == all[i as int]);
        assert(rest@ =~= all.skip(i + 1));
        assert(all.take(i + 1).last() == t);
        let inside = match from {
            Some(d) => crate::marks::date_on_or_before(d, t.booked),
            None => true,
        } && match to {
            Some(d) => crate::marks::date_on_or_before(t.booked, d),
            None => true,
        } && if spending {
            t.amount.0 < 0
        } else if income {
            t.amount.0 >= 0
        } else {
            true
        };
        if inside {
            let hit = matcher.lookup(t.descriptor.key(), Some(t.amount));
            out.push(Resolved { transaction: t, hit });
        }
        i = i + 1;
    }
    assert(all.take(i as int) =~= all);
    proof {
        lemma_window_len(all, from, to, spending, income);
    }
    let filtered_out = total - out.len();
    Loaded { transactions: out, filtered_out }
}

// ---- sums ---------------------------------------------------------------

/// The sum of some amounts, or nothing if adding them up in order would
/// leave the range of an amount at some step.
pub open spec fn running_sum(s: Seq<int>) -> Option<int>
    decreases s.len(),
{
    if s.len() == 0 {
        Some(0)
    } else {
        match running_sum(s.drop_last()) {
            Some(x) => if i64::MIN <= x + s.last() <= i64::MAX {
                Some(x + s.last())
            } else {
                None
            },
            None => None,
        }
    }
}

pub open spec fn line_amounts(lines: Seq<Line>) -> Seq<int> {
    lines.map_values(|l: Line| l.amount.0 as int)
}

pub open spec fn tally_amounts(ts: Seq<Tally>) -> Seq<int> {
    ts.map_values(|t: Tally| t.actual.0 as int)
}

fn sum_lines(lines: &Vec<Line>) -> (r: Amount)
    requires
        running_sum(line_amounts(lines@)) is Some,
    ensures
        r.0 == running_sum(line_amounts(lines@))->0,
{
    let ghost s = line_amounts(lines@);
    let mut total = Amount(0);
    let mut i: usize = 0;
    while i < lines.len()
        invariant
            i <= lines@.len(),
            s == line_amounts(lines@),
            running_sum(s) is Some,
            running_sum(s.take(i as int)) == Some(total.0 as int),
        decreases lines.len() - i,
    {
        assert(s.take(i + 1).drop_last() =~= s.take(i as int));
        proof {
            lemma_running_prefix(s, i + 1);
        }
        total = total.add(lines[i].amount);
        i = i + 1;
    }
    assert(s.take(i as int) =~= s);
    total
}

fn sum_tallies(ts: &Vec<Tally>) -> (r: Amount)
    requires
        running_sum(tally_amounts(ts@)) is Some,
    ensures
        r.0 == running_sum(tally_amounts(ts@))->0,
{
    let ghost s = tally_amounts(ts@);
    let mut total = Amount(0);
    let mut i: usize = 0;
    while i < ts.len()
        invariant
            i <= ts@.len(),
            s == tally_amounts(ts@),
            running_sum(s) is Some,
            running_sum(s.take(i as int)) == Some(total.0 as int),
        decreases ts.len() - i,
    {
        assert(s.take(i + 1).drop_last() =~= s.take(i as int));
        proof {
            lemma_running_prefix(s, i + 1);
        }
        total = total.add(ts[i].actual);
        i = i + 1;
    }
    assert(s.take(i as int) =~= s);
    total
}

/// A sum that fits fits at every step before.
proof fn lemma_running_prefix(s: Seq<int>, k: int)
    requires
        0 <= k <= s.len(),
        running_sum(s) is Some,
    ensures
        running_sum(s.take(k)) is Some,
    decreases s.len(),
{
    if k < s.len() {
        assert(s.drop_last().take(k) =~= s.take(k));
        lemma_running_prefix(s.drop_last(), k);
    } else {
        assert(s.take(k) =~= s);
    }
}

// ---- the budget report --------------------------------------------------

/// A line of the budget report: name, category, planned, actual, and
/// what remains.
#[verifier::opaque]
pub open spec fn report_row(name: Seq<char>, category: Seq<char>, planned: int, actual: int) -> Seq<
    Seq<char>,
> {
    seq![name, category, amount_text(planned), amount_text(actual), amount_text(planned - actual)]
}

pub open spec fn line_row(lines: Seq<Line>, tallies: Seq<Tally>, i: int) -> Seq<Seq<char>> {
    report_row(lines[i].name@, lines[i].category@, lines[i].amount.0 as int, tallies[i].actual.0 as int)
}

/// A section of the budget report: a row per line, and a total row when
/// there are lines.
pub open spec fn section_rows(lines: Seq<Line>, tallies: Seq<Tally>, total: Seq<char>) -> Seq<
    Seq<Seq<char>>,
> {
    let each = Seq::new(lines.len(), |i: int| line_row(lines, tallies, i));
    if lines.len() == 0 {
        each
    } else {
        each.push(
            report_row(
                total,
                Seq::empty(),
                running_sum(line_amounts(lines))->0,
                running_sum(tally_amounts(tallies))->0,
            ),
        )
    }
}

/// The budget report: income, then the budgeted lines, what no line took,
/// and the total spent against the total budgeted.
pub open spec fn budget_report(b: Budget, o: Outcome) -> Seq<Seq<Seq<char>>> {
    let spent = running_sum(tally_amounts(o.rows@))->0;
    section_rows(b.income@, o.income@, "(income)"@) + section_rows(b.rows@, o.rows@, "(budgeted)"@)
        + seq![
        seq![
            "(unbudgeted)"@,
            Seq::empty(),
            Seq::empty(),
            amount_text(o.unbudgeted.actual.0 as int),
            Seq::empty(),
        ],
        report_row(
            "(total spent)"@,
            Seq::empty(),
            running_sum(line_amounts(b.rows@))->0,
            spent + o.unbudgeted.actual.0,
        ),
    ]
}

/// What the budget report needs to add up without leaving the range of
/// an amount.
pub open spec fn report_fits(b: Budget, o: Outcome) -> bool {
    &&& o.income@.len() == b.income@.len()
    &&& o.rows@.len() == b.rows@.len()
    &&& running_sum(line_amounts(b.income@)) is Some
    &&& running_sum(line_amounts(b.rows@)) is Some
    &&& running_sum(tally_amounts(o.income@)) is Some
    &&& running_sum(tally_amounts(o.rows@)) is Some
    &&& forall|i: int|
        0 <= i < b.income@.len() ==> fits_remaining(
            (#[trigger] b.income@[i]).amount.0 as int,
            o.income@[i].actual.0 as int,
        )
    &&& forall|i: int|
        0 <= i < b.rows@.len() ==> fits_remaining(
            (#[trigger] b.rows@[i]).amount.0 as int,
            o.rows@[i].actual.0 as int,
        )
    &&& fits_remaining(
        running_sum(line_amounts(b.income@))->0,
        running_sum(tally_amounts(o.income@))->0,
    )
    &&& fits_remaining(
        running_sum(line_amounts(b.rows@))->0,
        running_sum(tally_amounts(o.rows@))->0,
    )
    &&& i64::MIN <= running_sum(tally_amounts(o.rows@))->0 + o.unbudgeted.actual.0 <= i64::MAX
    &&& fits_remaining(
        running_sum(line_amounts(b.rows@))->0,
        running_sum(tally_amounts(o.rows@))->0 + o.unbudgeted.actual.0,
    )
}

/// `planned - actual` can be had as `planned + (-actual)` in range.
pub open spec fn fits_remaining(planned: int, actual: int) -> bool {
    &&& actual > i64::MIN
    &&& i64::MIN <= planned - actual <= i64::MAX
}

fn report_cells(name: &str, category: &str, planned: Amount, actual: Amount) -> (r: Vec<String>)
    requires
        fits_remaining(planned.0 as int, actual.0 as int),
    ensures
        string_views(r@) == report_row(name@, category@, planned.0 as int, actual.0 as int),
{
    proof {
        reveal(report_row);
    }
    let remaining = planned.add(actual.neg());
    let mut v: Vec<String> = Vec::new();
    v.push(string_of(&chars_of(name)));
    v.push(string_of(&chars_of(category)));
    v.push(planned.to_text());
    v.push(actual.to_text());
    v.push(remaining.to_text());
    assert(string_views(v@) =~= report_row(name@, category@, planned.0 as int, actual.0 as int));
    v
}

fn push_section(rows: &mut Rows, lines: &Vec<Line>, tallies: &Vec<Tally>, total: &str)
    requires
        tallies@.len() == lines@.len(),
        running_sum(line_amounts(lines@)) is Some,
        running_sum(tally_amounts(tallies@)) is Some,
        forall|i: int|
            0 <= i < lines@.len() ==> fits_remaining(
                (#[trigger] lines@[i]).amount.0 as int,
                tallies@[i].actual.0 as int,
            ),
        fits_remaining(
            running_sum(line_amounts(lines@))->0,
            running_sum(tally_amounts(tallies@))->0,
        ),
    ensures
        final(rows).headers == old(rows).headers,
        final(rows).numeric == old(rows).numeric,
        crate::output::row_views(final(rows).rows@) == crate::output::row_views(old(rows).rows@)
            + section_rows(lines@, tallies@, total@),
{
    let ghost start = crate::output::row_views(rows.rows@);
    let ghost each = Seq::new(lines@.len(), |i: int| line_row(lines@, tallies@, i));
    let mut i: usize = 0;
    while i < lines.len()
        invariant
            i <= lines@.len(),
            tallies@.len() == lines@.len(),
            rows.headers == old(rows).headers,
            rows.numeric == old(rows).numeric,
            forall|j: int|
                0 <= j < lines@.len() ==> fits_remaining(
                    (#[trigger] lines@[j]).amount.0 as int,
                    tallies@[j].actual.0 as int,
                ),
            each == Seq::new(lines@.len(), |i: int| line_row(lines@, tallies@, i)),
            crate::output::row_views(rows.rows@) == start + each.take(i as int),
        decreases lines.len() - i,
    {
        let cells = report_cells(
            lines[i].name.as_str(),
            lines[i].category.as_str(),
            lines[i].amount,
            tallies[i].actual,
        );
        let ghost before = rows.rows@;
        rows.push(cells);
        assert(crate::output::row_views(rows.rows@) =~= crate::output::row_views(before).push(
            string_views(cells@),
        ));
        assert(each[i as int] == string_views(cells@));
        assert(each.take(i + 1) =~= each.take(i as int).push(each[i as int]));
        i = i + 1;
    }
    assert(each.take(i as int) =~= each);
    proof {
        reveal_strlit("");
        assert(""@ =~= Seq::<char>::empty());
    }
    let ghost sec = section_rows(lines@, tallies@, total@);
    if lines.len() > 0 {
        let planned = sum_lines(lines);
        let actual = sum_tallies(tallies);
        let cells = report_cells(total, "", planned, actual);
        let ghost before = rows.rows@;
        rows.push(cells);
        assert(string_views(cells@) == report_row(
            total@,
            Seq::empty(),
            running_sum(line_amounts(lines@))->0,
            running_sum(tally_amounts(tallies@))->0,
        ));
        assert(sec == each.push(string_views(cells@)));
        assert(crate::output::row_views(rows.rows@) =~= crate::output::row_views(before).push(
            string_views(cells@),
        ));
        assert(crate::output::row_views(rows.rows@) =~= start + sec);
    } else {
        assert(sec == each);
    }
}

#[verifier::rlimit(40)]
/// The budget report's rows, under `line, category, budget, actual,
/// remaining`, the figures right-aligned.
pub fn budget_table(budget: &Budget, outcome: &Outcome) -> (r: Rows)
    requires
        report_fits(*budget, *outcome),
    ensures
        string_views(r.headers@) == seq!["line"@, "category"@, "budget"@, "actual"@, "remaining"@],
        r.numeric@ == seq![2usize, 3, 4],
        crate::output::row_views(r.rows@) == budget_report(*budget, *outcome),
{
    let headers = ["line", "category", "budget", "actual", "remaining"];
    let mut rows = Rows::new(&headers).right_align(&[2, 3, 4]);
    assert(headers@.map_values(|h: &str| h@) =~= seq!["line"@, "category"@, "budget"@, "actual"@, "remaining"@]);
    push_section(&mut rows, &budget.income, &outcome.income, "(income)");
    push_section(&mut rows, &budget.rows, &outcome.rows, "(budgeted)");
    let spent = sum_tallies(&outcome.rows);
    let mut unbudgeted: Vec<String> = Vec::new();
    unbudgeted.push(string_of(&chars_of("(unbudgeted)")));
    unbudgeted.push(String::new());
    unbudgeted.push(String::new());
    unbudgeted.push(outcome.unbudgeted.actual.to_text());
    unbudgeted.push(String::new());
    let ghost before = rows.rows@;
    assert(crate::output::row_views(before) == section_rows(budget.income@, outcome.income@, "(income)"@)
        + section_rows(budget.rows@, outcome.rows@, "(budgeted)"@));
    rows.push(unbudgeted);
    let planned = sum_lines(&budget.rows);
    let all_spent = spent.add(outcome.unbudgeted.actual);
    proof {
        reveal_strlit("");
        assert(""@ =~= Seq::<char>::empty());
    }
    let last = report_cells("(total spent)", "", planned, all_spent);
    rows.push(last);
    assert(crate::output::row_views(rows.rows@) =~= crate::output::row_views(before) + seq![
        string_views(unbudgeted@),
        string_views(last@),
    ]);
    assert(string_views(last@) == report_row(
        "(total spent)"@,
        Seq::empty(),
        running_sum(line_amounts(budget.rows@))->0,
        running_sum(tally_amounts(outcome.rows@))->0 + outcome.unbudgeted.actual.0,
    ));
    assert(string_views(unbudgeted@) =~= seq![
        "(unbudgeted)"@,
        Seq::<char>::empty(),
        Seq::<char>::empty(),
        amount_text(outcome.unbudgeted.actual.0 as int),
        Seq::<char>::empty(),
    ]);
    rows
}

// ---- months ---------------------------------------------------------------

/// The month a day falls in, `YYYY-MM`.
pub open spec fn month_text_of(d: Date) -> Seq<char> {
    year_text(d.year as int) + seq!['-'] + zero_padded(d.month as nat, 2)
}

/// The month a transaction was booked in.
pub fn month_of(t: &Transaction) -> (r: String)
    ensures
        r@ == month_text_of(t.booked),
{
    let d = t.booked;
    let mut v: Vec<char> = Vec::new();
    if 0 <= d.year && d.year <= 9999 {
        v = zero_padded_chars(d.year as u64, 4);
    } else if d.year > 9999 {
        v.push('+');
        let y = zero_padded_chars(d.year as u64, 4);
        push_chars(&mut v, &y);
    } else {
        v.push('-');
        let wide: i64 = d.year as i64;
        let y = zero_padded_chars((-wide) as u64, 4);
        push_chars(&mut v, &y);
    }
    v.push('-');
    let m = zero_padded_chars(d.month as u64, 2);
    push_chars(&mut v, &m);
    string_of(&v)
}

/// Who was paid, for a listing: the merchant, or the descriptor when no
/// table knew it.
pub fn payee(r: &Resolved) -> (p: String)
    ensures
        p@ == match r.hit {
            Some(h) => if h.name@.len() > 0 {
                h.name@
            } else {
                key_of(r.transaction.descriptor@)
            },
            None => key_of(r.transaction.descriptor@),
        },
{
    let m = r.merchant();
    if chars_of(m).len() == 0 {
        string_of(&chars_of(r.transaction.descriptor.key()))
    } else {
        string_of(&chars_of(m))
    }
}

// ---- totals by category, merchant, month or tag ---------------------------

/// What the totals are grouped by.
#[derive(Debug, Clone, Copy, PartialEq, Eq, Structural)]
pub enum GroupBy {
    Category,
    Merchant,
    Month,
    Tag,
}

pub open spec fn or_else(value: Seq<char>, fallback: Seq<char>) -> Seq<char> {
    if value.len() == 0 {
        fallback
    } else {
        value
    }
}

pub open spec fn merchant_of(r: Resolved) -> Seq<char> {
    match r.hit {
        Some(h) => h.name@,
        None => Seq::empty(),
    }
}

pub open spec fn category_of(r: Resolved) -> Seq<char> {
    match r.hit {
        Some(h) => match h.category {
            Some(c) => c@,
            None => Seq::empty(),
        },
        None => Seq::empty(),
    }
}

/// The buckets a transaction counts towards: one for a category, merchant
/// or month, and one per tag, none when it has no tags.
pub open spec fn keys_of(r: Resolved, by: GroupBy) -> Seq<Seq<char>> {
    match by {
        GroupBy::Category => seq![or_else(category_of(r), "(uncategorised)"@)],
        GroupBy::Merchant => seq![or_else(merchant_of(r), "(unknown)"@)],
        GroupBy::Month => seq![month_text_of(r.transaction.booked)],
        GroupBy::Tag => match r.hit {
            Some(h) => string_views(h.tags@),
            None => Seq::empty(),
        },
    }
}

fn keys(r: &Resolved, by: GroupBy) -> (k: Vec<String>)
    ensures
        string_views(k@) == keys_of(*r, by),
{
    let mut out: Vec<String> = Vec::new();
    match by {
        GroupBy::Category => {
            let c = r.category();
            if chars_of(c).len() == 0 {
                out.push(string_of(&chars_of("(uncategorised)")));
            } else {
                out.push(string_of(&chars_of(c)));
            }
        },
        GroupBy::Merchant => {
            let m = r.merchant();
            if chars_of(m).len() == 0 {
                out.push(string_of(&chars_of("(unknown)")));
            } else {
                out.push(string_of(&chars_of(m)));
            }
        },
        GroupBy::Month => {
            out.push(month_of(&r.transaction));
        },
        GroupBy::Tag => {
            match &r.hit {
                Some(h) => {
                    let mut i: usize = 0;
                    while i < h.tags.len()
                        invariant
                            i <= h.tags@.len(),
                            string_views(out@) =~= string_views(h.tags@.take(i as int)),
                        decreases h.tags.len() - i,
                    {
                        let ghost before = out@;
                        out.push(string_of(&chars_of(h.tags[i].as_str())));
                        assert(string_views(out@) =~= string_views(before).push(h.tags@[i as int]@));
                        assert(h.tags@.take(i + 1) =~= h.tags@.take(i as int).push(h.tags@[i as int]));
                        i = i + 1;
                    }
                    assert(h.tags@.take(i as int) =~= h.tags@);
                },
                None => {},
            }
        },
    }
    assert(string_views(out@) =~= keys_of(*r, by));
    out
}

/// One bucket: its key, how many transactions, and their total.
pub struct Bucket {
    pub key: String,
    pub count: usize,
    pub total: Amount,
}

pub open spec fn bucket_views(bs: Seq<Bucket>) -> Seq<(Seq<char>, int, int)> {
    bs.map_values(|b: Bucket| (b.key@, b.count as int, b.total.0 as int))
}

/// Where a key's bucket is.
pub open spec fn bucket_index(bs: Seq<(Seq<char>, int, int)>, key: Seq<char>) -> Option<int>
    decreases bs.len(),
{
    if bs.len() == 0 {
        None
    } else if bs.last().0 == key {
        Some(bs.len() - 1)
    } else {
        bucket_index(bs.drop_last(), key)
    }
}

/// One transaction of `amount` counted towards `key`: its bucket grows,
/// or a new one is added after the others. Nothing when the total would
/// leave the range of an amount.
pub open spec fn count_in(bs: Seq<(Seq<char>, int, int)>, key: Seq<char>, amount: int) -> Option<
    Seq<(Seq<char>, int, int)>,
> {
    match bucket_index(bs, key) {
        Some(i) => if i64::MIN <= bs[i].2 + amount <= i64::MAX && bs[i].1 + 1 <= usize::MAX {
            Some(bs.update(i, (key, bs[i].1 + 1, bs[i].2 + amount)))
        } else {
            None
        },
        None => Some(bs.push((key, 1, amount))),
    }
}

/// Each key counted in turn.
pub open spec fn count_keys(bs: Seq<(Seq<char>, int, int)>, keys: Seq<Seq<char>>, amount: int) -> Option<
    Seq<(Seq<char>, int, int)>,
>
    decreases keys.len(),
{
    if keys.len() == 0 {
        Some(bs)
    } else {
        match count_keys(bs, keys.drop_last(), amount) {
            Some(b) => count_in(b, keys.last(), amount),
            None => None,
        }
    }
}

/// The buckets of the transactions, in the order their keys first came.
pub open spec fn bucketed(rs: Seq<Resolved>, by: GroupBy) -> Option<Seq<(Seq<char>, int, int)>>
    decreases rs.len(),
{
    if rs.len() == 0 {
        Some(Seq::empty())
    } else {
        match bucketed(rs.drop_last(), by) {
            Some(bs) => count_keys(bs, keys_of(rs.last(), by), rs.last().transaction.amount.0 as int),
            None => None,
        }
    }
}

/// The order of the totals: months by key; anything else by total, the
/// largest outflow first, then by key.
pub open spec fn bucket_lt(a: (Seq<char>, int, int), b: (Seq<char>, int, int), by: GroupBy) -> bool {
    if by == GroupBy::Month {
        text_lt(a.0, b.0)
    } else {
        a.2 < b.2 || (a.2 == b.2 && text_lt(a.0, b.0))
    }
}

pub open spec fn bucket_place(s: Seq<(Seq<char>, int, int)>, b: (Seq<char>, int, int), by: GroupBy) -> int
    decreases s.len(),
{
    if s.len() == 0 {
        0
    } else if bucket_lt(b, s[0], by) {
        0
    } else {
        1 + bucket_place(s.drop_first(), b, by)
    }
}

pub open spec fn sorted_buckets(s: Seq<(Seq<char>, int, int)>, by: GroupBy) -> Seq<(Seq<char>, int, int)>
    decreases s.len(),
{
    if s.len() == 0 {
        s
    } else {
        let sorted = sorted_buckets(s.drop_last(), by);
        let k = bucket_place(sorted, s.last(), by);
        sorted.take(k).push(s.last()) + sorted.skip(k)
    }
}

proof fn lemma_bucket_place(s: Seq<(Seq<char>, int, int)>, b: (Seq<char>, int, int), by: GroupBy, i: int)
    requires
        0 <= i <= s.len(),
        i < s.len() ==> bucket_lt(b, s[i], by),
        forall|j: int| 0 <= j < i ==> !bucket_lt(b, #[trigger] s[j], by),
    ensures
        bucket_place(s, b, by) == i,
    decreases s.len(),
{
    if s.len() > 0 && i > 0 {
        assert forall|j: int| 0 <= j < i - 1 implies !bucket_lt(b, #[trigger] s.drop_first()[j], by) by {
            assert(s.drop_first()[j] == s[j + 1]);
        }
        lemma_bucket_place(s.drop_first(), b, by, i - 1);
    }
}

fn find_bucket(bs: &Vec<Bucket>, key: &str) -> (r: Option<usize>)
    ensures
        match r {
            Some(i) => bucket_index(bucket_views(bs@), key@) == Some(i as int),
            None => bucket_index(bucket_views(bs@), key@) is None,
        },
{
    let ghost v = bucket_views(bs@);
    let mut i: usize = bs.len();
    assert(v.take(i as int) =~= v);
    while i > 0
        invariant
            i <= bs@.len(),
            v == bucket_views(bs@),
            bucket_index(v, key@) == bucket_index(v.take(i as int), key@),
        decreases i,
    {
        assert(v.take(i as int).drop_last() =~= v.take(i - 1));
        assert(v.take(i as int).last() == v[i - 1]);
        if str_eq(bs[i - 1].key.as_str(), key) {
            return Some(i - 1);
        }
        i = i - 1;
    }
    None
}

proof fn lemma_bucket_index(bs: Seq<(Seq<char>, int, int)>, key: Seq<char>)
    ensures
        bucket_index(bs, key) matches Some(i) ==> 0 <= i < bs.len() && bs[i].0 == key,
    decreases bs.len(),
{
    if bs.len() > 0 && bs.last().0 != key {
        lemma_bucket_index(bs.drop_last(), key);
    }
}

/// Counts one transaction of `amount` towards a key.
fn count_one(bs: &mut Vec<Bucket>, key: &String, amount: Amount)
    requires
        count_in(bucket_views(old(bs)@), key@, amount.0 as int) is Some,
    ensures
        count_in(bucket_views(old(bs)@), key@, amount.0 as int) == Some(bucket_views(final(bs)@)),
{
    let ghost v = bucket_views(bs@);
    proof {
        lemma_bucket_index(v, key@);
    }
    match find_bucket(bs, key.as_str()) {
        Some(i) => {
            assert(v[i as int] == (bs@[i as int].key@, bs@[i as int].count as int, bs@[i as int].total.0 as int));
            let b = Bucket {
                key: string_of(&chars_of(key.as_str())),
                count: bs[i].count + 1,
                total: bs[i].total.add(amount),
            };
            bs.set(i, b);
            assert(bucket_views(bs@) =~= v.update(i as int, (key@, v[i as int].1 + 1, v[i as int].2 + amount.0)));
        },
        None => {
            bs.push(Bucket { key: string_of(&chars_of(key.as_str())), count: 1, total: amount });
            assert(bucket_views(bs@) =~= v.push((key@, 1, amount.0 as int)));
        },
    }
}

/// Counts one transaction of `amount` towards each of its keys.
fn count_into(bs: &mut Vec<Bucket>, keys: &Vec<String>, amount: Amount)
    requires
        count_keys(bucket_views(old(bs)@), string_views(keys@), amount.0 as int) is Some,
    ensures
        count_keys(bucket_views(old(bs)@), string_views(keys@), amount.0 as int) == Some(
            bucket_views(final(bs)@),
        ),
{
    let ghost start = bucket_views(bs@);
    let ghost ks = string_views(keys@);
    let mut i: usize = 0;
    assert(ks.take(0) =~= Seq::<Seq<char>>::empty());
    while i < keys.len()
        invariant
            i <= keys@.len(),
            ks == string_views(keys@),
            count_keys(start, ks, amount.0 as int) is Some,
            count_keys(start, ks.take(i as int), amount.0 as int) == Some(bucket_views(bs@)),
        decreases keys.len() - i,
    {
        assert(ks.take(i + 1).drop_last() =~= ks.take(i as int));
        assert(ks.take(i + 1).last() == keys@[i as int]@);
        proof {
            lemma_count_keys_prefix(start, ks, amount.0 as int, i + 1);
        }
        count_one(bs, &keys[i], amount);
        i = i + 1;
    }
    assert(ks.take(i as int) =~= ks);
}

proof fn lemma_count_keys_prefix(bs: Seq<(Seq<char>, int, int)>, ks: Seq<Seq<char>>, amount: int, k: int)
    requires
        0 <= k <= ks.len(),
        count_keys(bs, ks, amount) is Some,
    ensures
        count_keys(bs, ks.take(k), amount) is Some,
    decreases ks.len(),
{
    if k < ks.len() {
        assert(ks.drop_last().take(k) =~= ks.take(k));
        lemma_count_keys_prefix(bs, ks.drop_last(), amount, k);
    } else {
        assert(ks.take(k) =~= ks);
    }
}

proof fn lemma_bucketed_prefix(rs: Seq<Resolved>, by: GroupBy, k: int)
    requires
        0 <= k <= rs.len(),
        bucketed(rs, by) is Some,
    ensures
        bucketed(rs.take(k), by) is Some,
    decreases rs.len(),
{
    if k < rs.len() {
        assert(rs.drop_last().take(k) =~= rs.take(k));
        lemma_bucketed_prefix(rs.drop_last(), by, k);
    } else {
        assert(rs.take(k) =~= rs);
    }
}

/// The buckets of the transactions, by the key each counts towards.
pub fn buckets(rs: &Vec<Resolved>, by: GroupBy) -> (r: Vec<Bucket>)
    requires
        bucketed(rs@, by) is Some,
    ensures
        bucketed(rs@, by) == Some(bucket_views(r@)),
{
    let mut bs: Vec<Bucket> = Vec::new();
    let mut i: usize = 0;
    assert(rs@.take(0) =~= Seq::<Resolved>::empty());
    assert(bucket_views(bs@) =~= Seq::<(Seq<char>, int, int)>::empty());
    while i < rs.len()
        invariant
            i <= rs@.len(),
            bucketed(rs@, by) is Some,
            bucketed(rs@.take(i as int), by) == Some(bucket_views(bs@)),
        decreases rs.len() - i,
    {
        assert(rs@.take(i + 1).drop_last() =~= rs@.take(i as int));
        assert(rs@.take(i + 1).last() == rs@[i as int]);
        proof {
            lemma_bucketed_prefix(rs@, by, i + 1);
        }
        let ks = keys(&rs[i], by);
        count_into(&mut bs, &ks, rs[i].transaction.amount);
        i = i + 1;
    }
    assert(rs@.take(i as int) =~= rs@);
    bs
}

fn bucket_before(a: &Bucket, b: &Bucket, by: GroupBy) -> (r: bool)
    ensures
        r == bucket_lt((a.key@, a.count as int, a.total.0 as int), (b.key@, b.count as int, b.total.0 as int), by),
{
    match by {
        GroupBy::Month => compare_text(a.key.as_str(), b.key.as_str()),
        _ => a.total.0 < b.total.0 || (a.total.0 == b.total.0 && compare_text(a.key.as_str(), b.key.as_str())),
    }
}

/// Sorts the buckets: months by key, anything else largest outflow first.
pub fn sort_buckets(v: Vec<Bucket>, by: GroupBy) -> (r: Vec<Bucket>)
    ensures
        bucket_views(r@) == sorted_buckets(bucket_views(v@), by),
{
    let ghost all = bucket_views(v@);
    let mut rest = v;
    let mut sorted: Vec<Bucket> = Vec::new();
    let n = rest.len();
    let mut i: usize = 0;
    assert(all.take(0) =~= Seq::<(Seq<char>, int, int)>::empty());
    assert(bucket_views(sorted@) =~= Seq::<(Seq<char>, int, int)>::empty());
    while i < n
        invariant
            i <= n,
            n == all.len(),
            bucket_views(rest@) == all.skip(i as int),
            bucket_views(sorted@) == sorted_buckets(all.take(i as int), by),
        decreases n - i,
    {
        let ghost s = bucket_views(sorted@);
        assert(all.take(i + 1).drop_last() =~= all.take(i as int));
        assert(all.skip(i as int)[0] == all[i as int]);
        assert(bucket_views(rest@).len() == rest@.len());
        let ghost old_rest = rest@;
        let b = rest.remove(0);
        assert(bucket_views(rest@) =~= bucket_views(old_rest).drop_first());
        let ghost bv = (b.key@, b.count as int, b.total.0 as int);
        assert(bv == all[i as int]);
        assert(all.take(i + 1).last() == bv);
        let mut k: usize = 0;
        while k < sorted.len() && !bucket_before(&b, &sorted[k], by)
            invariant
                k <= sorted@.len(),
                s == bucket_views(sorted@),
                bv == (b.key@, b.count as int, b.total.0 as int),
                forall|j: int| 0 <= j < k ==> !bucket_lt(bv, #[trigger] s[j], by),
            decreases sorted.len() - k,
        {
            assert(s[k as int] == (sorted@[k as int].key@, sorted@[k as int].count as int, sorted@[k as int].total.0 as int));
            k = k + 1;
        }
        proof {
            if k < sorted@.len() {
                assert(s[k as int] == (sorted@[k as int].key@, sorted@[k as int].count as int, sorted@[k as int].total.0 as int));
            }
            lemma_bucket_place(s, bv, by, k as int);
        }
        let ghost old_sorted = sorted@;
        sorted.insert(k, b);
        assert(bucket_views(sorted@) =~= s.take(k as int).push(bv) + s.skip(k as int)) by {
            assert forall|j: int| 0 <= j < sorted@.len() implies bucket_views(sorted@)[j] == (
            s.take(k as int).push(bv) + s.skip(k as int))[j] by {
                if j < k {
                    assert(sorted@[j] == old_sorted[j]);
                } else if j > k {
                    assert(sorted@[j] == old_sorted[j - 1]);
                }
            }
        }
        i = i + 1;
    }
    assert(all.take(i as int) =~= all);
    sorted
}

pub open spec fn group_label(by: GroupBy) -> Seq<char> {
    match by {
        GroupBy::Category => "category"@,
        GroupBy::Merchant => "merchant"@,
        GroupBy::Month => "month"@,
        GroupBy::Tag => "tag"@,
    }
}

pub open spec fn transaction_amounts(rs: Seq<Resolved>) -> Seq<int> {
    rs.map_values(|r: Resolved| r.transaction.amount.0 as int)
}

/// The totals report: a row per bucket in order, cut to the limit, and a
/// grand total when every transaction counted once and nothing was cut.
pub open spec fn summary_report(rs: Seq<Resolved>, by: GroupBy, limit: Option<usize>) -> Seq<
    Seq<Seq<char>>,
> {
    let all = sorted_buckets(bucketed(rs, by)->0, by);
    let shown = match limit {
        Some(n) => if n < all.len() {
            all.take(n as int)
        } else {
            all
        },
        None => all,
    };
    let each = shown.map_values(
        |b: (Seq<char>, int, int)| seq![b.0, decimal(b.1 as nat), amount_text(b.2)],
    );
    if by != GroupBy::Tag && limit is None && each.len() > 0 {
        each.push(
            seq![
                "(total)"@,
                decimal(rs.len()),
                amount_text(running_sum(transaction_amounts(rs))->0),
            ],
        )
    } else {
        each
    }
}

fn sum_transactions(rs: &Vec<Resolved>) -> (r: Amount)
    requires
        running_sum(transaction_amounts(rs@)) is Some,
    ensures
        r.0 == running_sum(transaction_amounts(rs@))->0,
{
    let ghost s = transaction_amounts(rs@);
    let mut total = Amount(0);
    let mut i: usize = 0;
    while i < rs.len()
        invariant
            i <= rs@.len(),
            s == transaction_amounts(rs@),
            running_sum(s) is Some,
            running_sum(s.take(i as int)) == Some(total.0 as int),
        decreases rs.len() - i,
    {
        assert(s.take(i + 1).drop_last() =~= s.take(i as int));
        proof {
            lemma_running_prefix(s, i + 1);
        }
        total = total.add(rs[i].transaction.amount);
        i = i + 1;
    }
    assert(s.take(i as int) =~= s);
    total
}

/// Totals by category, merchant, month or tag, under the grouping's name,
/// `count` and `total`, the figures right-aligned.
pub fn summary_table(rs: &Vec<Resolved>, by: GroupBy, limit: Option<usize>) -> (r: Rows)
    requires
        bucketed(rs@, by) is Some,
        running_sum(transaction_amounts(rs@)) is Some,
    ensures
        string_views(r.headers@) == seq![group_label(by), "count"@, "total"@],
        r.numeric@ == seq![1usize, 2],
        crate::output::row_views(r.rows@) == summary_report(rs@, by, limit),
{
    let label = match by {
        GroupBy::Category => "category",
        GroupBy::Merchant => "merchant",
        GroupBy::Month => "month",
        GroupBy::Tag => "tag",
    };
    let headers = [label, "count", "total"];
    let mut rows = Rows::new(&headers).right_align(&[1, 2]);
    assert(headers@.map_values(|h: &str| h@) =~= seq![group_label(by), "count"@, "total"@]);
    let sorted = sort_buckets(buckets(rs, by), by);
    let ghost all = bucket_views(sorted@);
    let n = match limit {
        Some(l) => if l < sorted.len() {
            l
        } else {
            sorted.len()
        },
        None => sorted.len(),
    };
    let ghost shown = all.take(n as int);
    let ghost each = shown.map_values(
        |b: (Seq<char>, int, int)| seq![b.0, decimal(b.1 as nat), amount_text(b.2)],
    );
    let mut i: usize = 0;
    while i < n
        invariant
            i <= n <= sorted@.len(),
            all == bucket_views(sorted@),
            shown == all.take(n as int),
            each == shown.map_values(
                |b: (Seq<char>, int, int)| seq![b.0, decimal(b.1 as nat), amount_text(b.2)],
            ),
            rows.numeric@ == seq![1usize, 2],
            string_views(rows.headers@) == seq![group_label(by), "count"@, "total"@],
            crate::output::row_views(rows.rows@) =~= each.take(i as int),
        decreases n - i,
    {
        let b = &sorted[i];
        let mut cells: Vec<String> = Vec::new();
        cells.push(string_of(&chars_of(b.key.as_str())));
        cells.push(string_of(&decimal_chars(b.count as u64)));
        cells.push(b.total.to_text());
        assert(all[i as int] == (b.key@, b.count as int, b.total.0 as int));
        assert(string_views(cells@) =~= each[i as int]);
        let ghost before = rows.rows@;
        rows.push(cells);
        assert(crate::output::row_views(rows.rows@) =~= crate::output::row_views(before).push(
            string_views(cells@),
        ));
        assert(each.take(i + 1) =~= each.take(i as int).push(each[i as int]));
        i = i + 1;
    }
    assert(each.take(i as int) =~= each);
    assert(shown == match limit {
        Some(l) => if l < all.len() {
            all.take(l as int)
        } else {
            all
        },
        None => all,
    });
    assert(crate::output::row_views(rows.rows@).len() == rows.rows@.len());
    assert(all == sorted_buckets(bucketed(rs@, by)->0, by));
    if by != GroupBy::Tag && limit.is_none() && rows.rows.len() > 0 {
        let grand = sum_transactions(rs);
        let mut cells: Vec<String> = Vec::new();
        cells.push(string_of(&chars_of("(total)")));
        cells.push(string_of(&decimal_chars(rs.len() as u64)));
        cells.push(grand.to_text());
        let ghost before = rows.rows@;
        rows.push(cells);
        assert(crate::output::row_views(rows.rows@) =~= crate::output::row_views(before).push(
            string_views(cells@),
        ));
        assert(string_views(cells@) =~= seq![
            "(total)"@,
            decimal(rs@.len()),
            amount_text(running_sum(transaction_amounts(rs@))->0),
        ]);
    }
    rows
}

// ---- what no table knew ---------------------------------------------------

/// The unmatched transactions of one descriptor.
#[derive(Debug, Clone)]
pub struct Group {
    /// The descriptor as first seen.
    pub descriptor: String,
    pub kind: String,
    pub count: usize,
    pub total: Amount,
    pub first: Date,
    pub last: Date,
}

pub struct GroupView {
    pub norm: Seq<char>,
    pub descriptor: Seq<char>,
    pub kind: Seq<char>,
    pub count: int,
    pub total: int,
    pub first: Date,
    pub last: Date,
}

pub open spec fn kind_of(d: crate::statement::DescriptorView) -> Seq<char> {
    match d {
        crate::statement::DescriptorView::Card { .. } => "card"@,
        crate::statement::DescriptorView::Swish { .. } => "swish"@,
        crate::statement::DescriptorView::Plain { .. } => "plain"@,
    }
}

pub open spec fn earlier(a: Date, b: Date) -> Date {
    if date_le(a, b) {
        a
    } else {
        b
    }
}

pub open spec fn later(a: Date, b: Date) -> Date {
    if date_le(a, b) {
        b
    } else {
        a
    }
}

pub open spec fn group_index(gs: Seq<GroupView>, norm: Seq<char>) -> Option<int>
    decreases gs.len(),
{
    if gs.len() == 0 {
        None
    } else if gs.last().norm == norm {
        Some(gs.len() - 1)
    } else {
        group_index(gs.drop_last(), norm)
    }
}

/// One unmatched transaction added to the group of its normalised
/// descriptor, or a new group after the others; nothing when the total
/// would leave the range of an amount.
pub open spec fn add_unmatched(gs: Seq<GroupView>, t: Transaction) -> Option<Seq<GroupView>> {
    let key = key_of(t.descriptor@);
    let norm = normalized_text(key, false);
    let a = t.amount.0 as int;
    match group_index(gs, norm) {
        Some(i) => {
            let g = gs[i];
            if i64::MIN <= g.total + a <= i64::MAX && g.count + 1 <= usize::MAX {
                Some(
                    gs.update(
                        i,
                        GroupView {
                            count: g.count + 1,
                            total: g.total + a,
                            first: earlier(g.first, t.booked),
                            last: later(g.last, t.booked),
                            ..g
                        },
                    ),
                )
            } else {
                None
            }
        },
        None => Some(
            gs.push(
                GroupView {
                    norm,
                    descriptor: key,
                    kind: kind_of(t.descriptor@),
                    count: 1,
                    total: a,
                    first: t.booked,
                    last: t.booked,
                },
            ),
        ),
    }
}

/// The groups of what no table resolved, in the order each descriptor
/// first came.
pub open spec fn unmatched_of(rs: Seq<Resolved>) -> Option<Seq<GroupView>>
    decreases rs.len(),
{
    if rs.len() == 0 {
        Some(Seq::empty())
    } else {
        match unmatched_of(rs.drop_last()) {
            Some(gs) => if rs.last().hit is Some {
                Some(gs)
            } else {
                add_unmatched(gs, rs.last().transaction)
            },
            None => None,
        }
    }
}

pub open spec fn group_view(g: Group, norm: Seq<char>) -> GroupView {
    GroupView {
        norm,
        descriptor: g.descriptor@,
        kind: g.kind@,
        count: g.count as int,
        total: g.total.0 as int,
        first: g.first,
        last: g.last,
    }
}

proof fn lemma_group_index(gs: Seq<GroupView>, norm: Seq<char>)
    ensures
        group_index(gs, norm) matches Some(i) ==> 0 <= i < gs.len() && gs[i].norm == norm,
        group_index(gs, norm) is None ==> forall|j: int| 0 <= j < gs.len() ==> (#[trigger] gs[j]).norm != norm,
    decreases gs.len(),
{
    if gs.len() > 0 && gs.last().norm != norm {
        lemma_group_index(gs.drop_last(), norm);
        assert forall|j: int| 0 <= j < gs.len() - 1 implies gs.drop_last()[j] == gs[j] by {}
    }
}

proof fn lemma_unmatched_prefix(rs: Seq<Resolved>, k: int)
    requires
        0 <= k <= rs.len(),
        unmatched_of(rs) is Some,
    ensures
        unmatched_of(rs.take(k)) is Some,
    decreases rs.len(),
{
    if k < rs.len() {
        assert(rs.drop_last().take(k) =~= rs.take(k));
        lemma_unmatched_prefix(rs.drop_last(), k);
    } else {
        assert(rs.take(k) =~= rs);
    }
}

fn earliest(a: Date, b: Date) -> (r: Date)
    ensures
        r == earlier(a, b),
{
    if crate::marks::date_on_or_before(a, b) {
        a
    } else {
        b
    }
}

fn latest(a: Date, b: Date) -> (r: Date)
    ensures
        r == later(a, b),
{
    if crate::marks::date_on_or_before(a, b) {
        b
    } else {
        a
    }
}

fn find_group(norms: &Vec<String>, norm: &str, Ghost(gs): Ghost<Seq<GroupView>>) -> (r: Option<usize>)
    requires
        gs.len() == norms@.len(),
        forall|q: int| 0 <= q < gs.len() ==> (#[trigger] gs[q]).norm == norms@[q]@,
    ensures
        r matches Some(j) ==> j < norms@.len() && group_index(gs, norm@) == Some(j as int),
        r is None ==> group_index(gs, norm@) is None,
{
    let mut j: usize = norms.len();
    assert(gs.take(j as int) =~= gs);
    while j > 0
        invariant
            j <= norms@.len(),
            gs.len() == norms@.len(),
            forall|q: int| 0 <= q < gs.len() ==> (#[trigger] gs[q]).norm == norms@[q]@,
            group_index(gs, norm@) == group_index(gs.take(j as int), norm@),
        decreases j,
    {
        assert(gs.take(j as int).drop_last() =~= gs.take(j - 1));
        assert(gs.take(j as int).last() == gs[j - 1]);
        if str_eq(norms[j - 1].as_str(), norm) {
            return Some(j - 1);
        }
        j = j - 1;
    }
    None
}

/// Groups what no table resolved by normalised descriptor: how many, their
/// total, and the first and last day each was seen.
pub fn unmatched_groups(rs: &Vec<Resolved>) -> (r: Vec<Group>)
    requires
        unmatched_of(rs@) is Some,
    ensures
        ({
            let gs = unmatched_of(rs@)->0;
            &&& r@.len() == gs.len()
            &&& forall|i: int| 0 <= i < r@.len() ==> group_view(#[trigger] r@[i], gs[i].norm) == gs[i]
        }),
{
    let mut groups: Vec<Group> = Vec::new();
    let mut norms: Vec<String> = Vec::new();
    let mut i: usize = 0;
    assert(rs@.take(0) =~= Seq::<Resolved>::empty());
    while i < rs.len()
        invariant
            i <= rs@.len(),
            unmatched_of(rs@) is Some,
            unmatched_of(rs@.take(i as int)) is Some,
            groups@.len() == norms@.len(),
            groups@.len() == unmatched_of(rs@.take(i as int))->0.len(),
            forall|j: int|
                0 <= j < groups@.len() ==> group_view(#[trigger] groups@[j], norms@[j]@)
                    == unmatched_of(rs@.take(i as int))->0[j],
        decreases rs.len() - i,
    {
        let ghost gs = unmatched_of(rs@.take(i as int))->0;
        assert(rs@.take(i + 1).drop_last() =~= rs@.take(i as int));
        assert(rs@.take(i + 1).last() == rs@[i as int]);
        proof {
            lemma_unmatched_prefix(rs@, i + 1);
        }
        let r = &rs[i];
        if r.hit.is_none() {
            let t = &r.transaction;
            let key = t.descriptor.key();
            let norm = normalize(key);
            proof {
                lemma_group_index(gs, norm@);
                assert forall|q: int| 0 <= q < gs.len() implies (#[trigger] gs[q]).norm == norms@[q]@ by {
                    assert(group_view(groups@[q], norms@[q]@) == gs[q]);
                }
            }
            match find_group(&norms, norm.as_str(), Ghost(gs)) {
                Some(j) => {
                    let g = &groups[j];
                    assert(group_view(*g, norms@[j as int]@) == gs[j as int]);
                    let updated = Group {
                        descriptor: string_of(&chars_of(g.descriptor.as_str())),
                        kind: string_of(&chars_of(g.kind.as_str())),
                        count: g.count + 1,
                        total: g.total.add(t.amount),
                        first: earliest(g.first, t.booked),
                        last: latest(g.last, t.booked),
                    };
                    let ghost old_groups = groups@;
                    groups.set(j, updated);
                    assert forall|q: int| 0 <= q < groups@.len() implies group_view(#[trigger] groups@[q], norms@[q]@)
                        == unmatched_of(rs@.take(i + 1))->0[q] by {
                        if q != j {
                            assert(groups@[q] == old_groups[q]);
                        }
                    }
                },
                None => {
                    let g = Group {
                        descriptor: string_of(&chars_of(key)),
                        kind: string_of(&chars_of(t.descriptor.kind())),
                        count: 1,
                        total: t.amount,
                        first: t.booked,
                        last: t.booked,
                    };
                    groups.push(g);
                    norms.push(norm);
                },
            }
        }
        i = i + 1;
    }
    assert(rs@.take(i as int) =~= rs@);
    groups
}

/// The order of the work list: busiest first, then the larger outflow,
/// then by descriptor.
pub open spec fn group_lt(a: Group, b: Group) -> bool {
    ||| a.count > b.count
    ||| a.count == b.count && a.total.0 < b.total.0
    ||| a.count == b.count && a.total.0 == b.total.0 && text_lt(a.descriptor@, b.descriptor@)
}

pub open spec fn group_place(s: Seq<Group>, g: Group) -> int
    decreases s.len(),
{
    if s.len() == 0 {
        0
    } else if group_lt(g, s[0]) {
        0
    } else {
        1 + group_place(s.drop_first(), g)
    }
}

/// The groups seen at least `min_count` times, in the work list's order,
/// equals in the order they came.
pub open spec fn ranked_groups(s: Seq<Group>, min_count: usize) -> Seq<Group>
    decreases s.len(),
{
    if s.len() == 0 {
        s
    } else {
        let sorted = ranked_groups(s.drop_last(), min_count);
        if s.last().count >= min_count {
            let k = group_place(sorted, s.last());
            sorted.take(k).push(s.last()) + sorted.skip(k)
        } else {
            sorted
        }
    }
}

proof fn lemma_group_place(s: Seq<Group>, g: Group, i: int)
    requires
        0 <= i <= s.len(),
        i < s.len() ==> group_lt(g, s[i]),
        forall|j: int| 0 <= j < i ==> !group_lt(g, #[trigger] s[j]),
    ensures
        group_place(s, g) == i,
    decreases s.len(),
{
    if s.len() > 0 && i > 0 {
        assert forall|j: int| 0 <= j < i - 1 implies !group_lt(g, #[trigger] s.drop_first()[j]) by {
            assert(s.drop_first()[j] == s[j + 1]);
        }
        lemma_group_place(s.drop_first(), g, i - 1);
    }
}

fn group_before(a: &Group, b: &Group) -> (r: bool)
    ensures
        r == group_lt(*a, *b),
{
    a.count > b.count || (a.count == b.count && a.total.0 < b.total.0) || (a.count == b.count
        && a.total.0 == b.total.0 && compare_text(a.descriptor.as_str(), b.descriptor.as_str()))
}

/// Keeps the groups seen at least `min_count` times and puts them in the
/// work list's order.
pub fn rank_groups(groups: Vec<Group>, min_count: usize) -> (r: Vec<Group>)
    ensures
        r@ == ranked_groups(groups@, min_count),
{
    let ghost all = groups@;
    let mut rest = groups;
    let mut sorted: Vec<Group> = Vec::new();
    let n = rest.len();
    let mut i: usize = 0;
    assert(all.take(0) =~= Seq::<Group>::empty());
    while i < n
        invariant
            i <= n,
            n == all.len(),
            rest@ == all.skip(i as int),
            sorted@ == ranked_groups(all.take(i as int), min_count),
        decreases n - i,
    {
        let ghost s = sorted@;
        assert(all.take(i + 1).drop_last() =~= all.take(i as int));
        let g = rest.remove(0);
        assert(g == all[i as int]);
        assert(rest@ =~= all.skip(i + 1));
        assert(all.take(i + 1).last() == g);
        if g.count >= min_count {
            let mut k: usize = 0;
            while k < sorted.len() && !group_before(&g, &sorted[k])
                invariant
                    k <= sorted@.len(),
                    s == sorted@,
                    forall|j: int| 0 <= j < k ==> !group_lt(g, #[trigger] s[j]),
                decreases sorted.len() - k,
            {
                k = k + 1;
            }
            proof {
                lemma_group_place(s, g, k as int);
            }
            sorted.insert(k, g);
            assert(sorted@ =~= s.take(k as int).push(g) + s.skip(k as int));
        }
        i = i + 1;
    }
    assert(all.take(i as int) =~= all);
    sorted
}

pub open spec fn counts_total(gs: Seq<Group>) -> int
    decreases gs.len(),
{
    if gs.len() == 0 {
        0
    } else {
        counts_total(gs.drop_last()) + gs.last().count
    }
}

proof fn lemma_counts_total_prefix(gs: Seq<Group>, k: int)
    requires
        0 <= k <= gs.len(),
    ensures
        counts_total(gs.take(k)) <= counts_total(gs),
    decreases gs.len() - k,
{
    if k < gs.len() {
        assert(gs.take(k + 1).drop_last() =~= gs.take(k));
        lemma_counts_total_prefix(gs, k + 1);
    } else {
        assert(gs.take(k) =~= gs);
    }
}

/// How many transactions the groups hold between them.
pub fn count_unmatched(groups: &Vec<Group>) -> (r: usize)
    requires
        counts_total(groups@) <= usize::MAX,
    ensures
        r == counts_total(groups@),
{
    let mut total: usize = 0;
    let mut i: usize = 0;
    while i < groups.len()
        invariant
            i <= groups@.len(),
            counts_total(groups@) <= usize::MAX,
            total == counts_total(groups@.take(i as int)),
        decreases groups.len() - i,
    {
        assert(groups@.take(i + 1).drop_last() =~= groups@.take(i as int));
        proof {
            lemma_counts_total_prefix(groups@, i + 1);
        }
        total = total + groups[i].count;
        i = i + 1;
    }
    assert(groups@.take(i as int) =~= groups@);
    total
}

/// The work list as rows: count, total, kind, first and last day, and the
/// descriptor.
pub open spec fn unmatched_report(gs: Seq<Group>) -> Seq<Seq<Seq<char>>> {
    gs.map_values(
        |g: Group|
            seq![
                decimal(g.count as nat),
                amount_text(g.total.0 as int),
                g.kind@,
                crate::statement::date_text(g.first),
                crate::statement::date_text(g.last),
                g.descriptor@,
            ],
    )
}

/// The work list under `count, total, kind, first, last, descriptor`.
pub fn unmatched_table(groups: &Vec<Group>) -> (r: Rows)
    ensures
        string_views(r.headers@) == seq!["count"@, "total"@, "kind"@, "first"@, "last"@, "descriptor"@],
        r.numeric@ == seq![0usize, 1],
        crate::output::row_views(r.rows@) == unmatched_report(groups@),
{
    let headers = ["count", "total", "kind", "first", "last", "descriptor"];
    let mut rows = Rows::new(&headers).right_align(&[0, 1]);
    assert(headers@.map_values(|h: &str| h@) =~= seq!["count"@, "total"@, "kind"@, "first"@, "last"@, "descriptor"@]);
    let ghost each = unmatched_report(groups@);
    let mut i: usize = 0;
    while i < groups.len()
        invariant
            i <= groups@.len(),
            each == unmatched_report(groups@),
            rows.numeric@ == seq![0usize, 1],
            string_views(rows.headers@) == seq!["count"@, "total"@, "kind"@, "first"@, "last"@, "descriptor"@],
            crate::output::row_views(rows.rows@) =~= each.take(i as int),
        decreases groups.len() - i,
    {
        let g = &groups[i];
        let mut cells: Vec<String> = Vec::new();
        cells.push(string_of(&decimal_chars(g.count as u64)));
        cells.push(g.total.to_text());
        cells.push(string_of(&chars_of(g.kind.as_str())));
        cells.push(g.first.to_text());
        cells.push(g.last.to_text());
        cells.push(string_of(&chars_of(g.descriptor.as_str())));
        assert(string_views(cells@) =~= each[i as int]);
        let ghost before = rows.rows@;
        rows.push(cells);
        assert(crate::output::row_views(rows.rows@) =~= crate::output::row_views(before).push(
            string_views(cells@),
        ));
        assert(each.take(i + 1) =~= each.take(i as int).push(each[i as int]));
        i = i + 1;
    }
    assert(each.take(i as int) =~= each);
    rows
}

/// Whether a descriptor can stand bare in YAML: it starts with a letter,
/// holds only letters, digits, spaces, `-`, `_` and `.`, and does not end
/// in a space.
pub open spec fn bare_yaml(v: Seq<char>) -> bool {
    &&& v.len() > 0
    &&& is_ascii_letter(v[0])
    &&& forall|i: int| 0 <= i < v.len() ==> yaml_safe(#[trigger] v[i])
    &&& v.last() != ' '
}

pub open spec fn is_ascii_letter(c: char) -> bool {
    ('a' <= c && c <= 'z') || ('A' <= c && c <= 'Z')
}

pub open spec fn yaml_safe(c: char) -> bool {
    is_ascii_letter(c) || ('0' <= c && c <= '9') || c == ' ' || c == '-' || c == '_' || c == '.'
}

/// Backslashes and double quotes escaped with a backslash.
pub open spec fn yaml_escaped(v: Seq<char>) -> Seq<char>
    decreases v.len(),
{
    if v.len() == 0 {
        v
    } else {
        let c = v.last();
        let tail = if c == '\\' || c == '"' {
            seq!['\\', c]
        } else {
            seq![c]
        };
        yaml_escaped(v.drop_last()) + tail
    }
}

/// A YAML scalar: bare when plainly safe, else double-quoted.
pub open spec fn yaml_text(v: Seq<char>) -> Seq<char> {
    if bare_yaml(v) {
        v
    } else {
        seq!['"'] + yaml_escaped(v) + seq!['"']
    }
}

/// Quotes a YAML scalar unless it is plainly safe bare.
pub fn yaml_string(value: &str) -> (r: String)
    ensures
        r@ == yaml_text(value@),
{
    let cs = chars_of(value);
    let mut safe = cs.len() > 0 && (('a' <= cs[0] && cs[0] <= 'z') || ('A' <= cs[0] && cs[0] <= 'Z'));
    let mut i: usize = 0;
    while i < cs.len()
        invariant
            i <= cs@.len(),
            cs@ == value@,
            safe ==> forall|j: int| 0 <= j < i ==> yaml_safe(#[trigger] cs@[j]),
            !safe ==> !bare_yaml(value@),
            safe ==> cs@.len() > 0 && is_ascii_letter(cs@[0]),
        decreases cs.len() - i,
    {
        let c = cs[i];
        let ok = ('a' <= c && c <= 'z') || ('A' <= c && c <= 'Z') || ('0' <= c && c <= '9') || c
            == ' ' || c == '-' || c == '_' || c == '.';
        if !ok {
            safe = false;
        }
        i = i + 1;
    }
    if safe && cs[cs.len() - 1] == ' ' {
        safe = false;
    }
    if safe {
        return string_of(&cs);
    }
    let mut out: Vec<char> = Vec::new();
    out.push('"');
    let mut k: usize = 0;
    while k < cs.len()
        invariant
            k <= cs@.len(),
            out@ == seq!['"'] + yaml_escaped(cs@.take(k as int)),
        decreases cs.len() - k,
    {
        assert(cs@.take(k + 1).drop_last() =~= cs@.take(k as int));
        assert(cs@.take(k + 1).last() == cs@[k as int]);
        let c = cs[k];
        if c == '\\' || c == '"' {
            out.push('\\');
        }
        out.push(c);
        k = k + 1;
        assert(out@ =~= seq!['"'] + yaml_escaped(cs@.take(k as int)));
    }
    assert(cs@.take(k as int) =~= cs@);
    out.push('"');
    string_of(&out)
}

/// The YAML stub for one group: how often and how much as a comment, then
/// a merchant entry to fill in.
pub open spec fn yaml_stub(g: Group) -> Seq<Seq<char>> {
    seq![
        "  # seen "@ + decimal(g.count as nat) + if g.count == 1 {
            " time, "@
        } else {
            " times, "@
        } + amount_text(g.total.0 as int) + " kr"@,
        "  - name: "@ + yaml_text(g.descriptor@),
        "    category: TODO"@,
        "    match:"@,
        "      prefix: ["@ + yaml_text(g.descriptor@) + "]"@,
    ]
}

pub open spec fn yaml_stubs(gs: Seq<Group>) -> Seq<Seq<char>>
    decreases gs.len(),
{
    if gs.len() == 0 {
        Seq::empty()
    } else {
        yaml_stubs(gs.drop_last()) + yaml_stub(gs.last())
    }
}

/// The groups as YAML stubs, ready to paste into a table.
pub fn unmatched_yaml(groups: &Vec<Group>) -> (r: Vec<String>)
    ensures
        string_views(r@) == yaml_stubs(groups@),
{
    let mut out: Vec<String> = Vec::new();
    let mut i: usize = 0;
    assert(groups@.take(0) =~= Seq::<Group>::empty());
    while i < groups.len()
        invariant
            i <= groups@.len(),
            string_views(out@) =~= yaml_stubs(groups@.take(i as int)),
        decreases groups.len() - i,
    {
        assert(groups@.take(i + 1).drop_last() =~= groups@.take(i as int));
        assert(groups@.take(i + 1).last() == groups@[i as int]);
        let g = &groups[i];
        let quoted = yaml_string(g.descriptor.as_str());
        let mut first: Vec<char> = Vec::new();
        push_str(&mut first, "  # seen ");
        push_chars(&mut first, &decimal_chars(g.count as u64));
        if g.count == 1 {
            push_str(&mut first, " time, ");
        } else {
            push_str(&mut first, " times, ");
        }
        push_str(&mut first, g.total.to_text().as_str());
        push_str(&mut first, " kr");
        let mut second: Vec<char> = Vec::new();
        push_str(&mut second, "  - name: ");
        push_str(&mut second, quoted.as_str());
        let mut fifth: Vec<char> = Vec::new();
        push_str(&mut fifth, "      prefix: [");
        push_str(&mut fifth, quoted.as_str());
        push_str(&mut fifth, "]");
        let ghost before = string_views(out@);
        out.push(string_of(&first));
        out.push(string_of(&second));
        out.push(string_of(&chars_of("    category: TODO")));
        out.push(string_of(&chars_of("    match:")));
        out.push(string_of(&fifth));
        assert(string_views(out@) =~= before + yaml_stub(*g));
        i = i + 1;
    }
    assert(groups@.take(i as int) =~= groups@);
    out
}

// ---- the listing ----------------------------------------------------------

/// What the listing asks of a transaction: unresolved only, a merchant
/// name containing some text, a category equal to some text (both
/// compared normalised).
pub struct ListFilter {
    pub unresolved: bool,
    pub merchant: Option<String>,
    pub category: Option<String>,
}

pub open spec fn wanted(f: ListFilter, r: Resolved) -> bool {
    &&& !(f.unresolved && r.hit is Some)
    &&& (f.merchant matches Some(m) ==> occurs_in(
        normalized_text(m@, false),
        normalized_text(merchant_of(r), false),
    ))
    &&& (f.category matches Some(c) ==> normalized_text(category_of(r), false) == normalized_text(
        c@,
        false,
    ))
}

/// Whether the listing shows the transaction.
pub fn is_wanted(f: &ListFilter, r: &Resolved) -> (b: bool)
    ensures
        b == wanted(*f, *r),
{
    if f.unresolved && r.hit.is_some() {
        return false;
    }
    match &f.merchant {
        Some(m) => {
            let have = chars_of(normalize(r.merchant()).as_str());
            let want = chars_of(normalize(m.as_str()).as_str());
            if !occurs(&want, &have) {
                return false;
            }
        },
        None => {},
    }
    match &f.category {
        Some(c) => {
            if !str_eq(normalize(r.category()).as_str(), normalize(c.as_str()).as_str()) {
                return false;
            }
        },
        None => {},
    }
    true
}

pub open spec fn opt_text(o: Option<String>) -> Seq<char> {
    match o {
        Some(s) => s@,
        None => Seq::empty(),
    }
}

pub open spec fn balance_text(b: Option<Amount>) -> Seq<char> {
    match b {
        Some(a) => amount_text(a.0 as int),
        None => Seq::empty(),
    }
}

/// The headers of the listing: the usual five, the statement's own fields
/// when `full`, and how each was matched when `explain`.
pub open spec fn list_headers(full: bool, explain: bool) -> Seq<Seq<char>> {
    seq!["date"@, "amount"@, "merchant"@, "category"@, "descriptor"@] + if full {
        seq!["value_date"@, "batch"@, "balance"@, "text"@]
    } else {
        Seq::empty()
    } + if explain {
        seq!["via"@, "rule"@]
    } else {
        Seq::empty()
    }
}

/// One transaction's row of the listing.
pub open spec fn list_row(r: Resolved, full: bool, explain: bool) -> Seq<Seq<char>> {
    let t = r.transaction;
    seq![
        crate::statement::date_text(t.booked),
        amount_text(t.amount.0 as int),
        merchant_of(r),
        category_of(r),
        key_of(t.descriptor@),
    ] + if full {
        seq![
            crate::statement::date_text(t.value_date),
            t.batch@,
            balance_text(t.balance),
            t.text@,
        ]
    } else {
        Seq::empty()
    } + if explain {
        match r.hit {
            Some(h) => seq![opt_text(h.via), h.table@ + ": "@ + h.rule@],
            None => seq![Seq::empty(), Seq::empty()],
        }
    } else {
        Seq::empty()
    }
}

pub open spec fn list_rows(rs: Seq<Resolved>, f: ListFilter, full: bool, explain: bool) -> Seq<
    Seq<Seq<char>>,
>
    decreases rs.len(),
{
    if rs.len() == 0 {
        Seq::empty()
    } else {
        let rest = list_rows(rs.drop_last(), f, full, explain);
        if wanted(f, rs.last()) {
            rest.push(list_row(rs.last(), full, explain))
        } else {
            rest
        }
    }
}

fn list_cells(r: &Resolved, full: bool, explain: bool) -> (c: Vec<String>)
    ensures
        string_views(c@) == list_row(*r, full, explain),
{
    proof {
        reveal_strlit("");
    }
    let t = &r.transaction;
    let mut row: Vec<String> = Vec::new();
    row.push(t.booked.to_text());
    row.push(t.amount.to_text());
    row.push(string_of(&chars_of(r.merchant())));
    row.push(string_of(&chars_of(r.category())));
    row.push(string_of(&chars_of(t.descriptor.key())));
    let ghost base = string_views(row@);
    if full {
        row.push(t.value_date.to_text());
        row.push(string_of(&chars_of(t.batch.as_str())));
        row.push(
            match t.balance {
                Some(b) => b.to_text(),
                None => String::new(),
            },
        );
        row.push(string_of(&chars_of(t.text.as_str())));
    }
    let ghost mid = string_views(row@);
    if explain {
        match &r.hit {
            Some(h) => {
                row.push(
                    match &h.via {
                        Some(v) => string_of(&chars_of(v.as_str())),
                        None => String::new(),
                    },
                );
                let mut rule = chars_of(h.table.as_str());
                push_str(&mut rule, ": ");
                push_str(&mut rule, h.rule.as_str());
                row.push(string_of(&rule));
            },
            None => {
                row.push(String::new());
                row.push(String::new());
            },
        }
    }
    assert(string_views(row@) =~= list_row(*r, full, explain));
    row
}

/// The listing: the wanted transactions, in order.
pub fn list_table(rs: &Vec<Resolved>, f: &ListFilter, full: bool, explain: bool) -> (r: Rows)
    ensures
        string_views(r.headers@) == list_headers(full, explain),
        r.numeric@ == seq![1usize],
        crate::output::row_views(r.rows@) == list_rows(rs@, *f, full, explain),
{
    let mut headers: Vec<&str> = Vec::new();
    headers.push("date");
    headers.push("amount");
    headers.push("merchant");
    headers.push("category");
    headers.push("descriptor");
    if full {
        headers.push("value_date");
        headers.push("batch");
        headers.push("balance");
        headers.push("text");
    }
    if explain {
        headers.push("via");
        headers.push("rule");
    }
    let mut rows = Rows::new(headers.as_slice()).right_align(&[1]);
    assert(headers@.map_values(|h: &str| h@) =~= list_headers(full, explain));
    let mut i: usize = 0;
    assert(rs@.take(0) =~= Seq::<Resolved>::empty());
    while i < rs.len()
        invariant
            i <= rs@.len(),
            rows.numeric@ == seq![1usize],
            string_views(rows.headers@) == list_headers(full, explain),
            crate::output::row_views(rows.rows@) =~= list_rows(rs@.take(i as int), *f, full, explain),
        decreases rs.len() - i,
    {
        assert(rs@.take(i + 1).drop_last() =~= rs@.take(i as int));
        assert(rs@.take(i + 1).last() == rs@[i as int]);
        if is_wanted(f, &rs[i]) {
            let cells = list_cells(&rs[i], full, explain);
            let ghost before = rows.rows@;
            rows.push(cells);
            assert(crate::output::row_views(rows.rows@) =~= crate::output::row_views(before).push(
                string_views(cells@),
            ));
        }
        i = i + 1;
    }
    assert(rs@.take(i as int) =~= rs@);
    rows
}

// ---- the budget command's other listings -------------------------------

/// The transactions no budget line took, under `date, account, amount,
/// merchant, category`: each member, by its position among the month's
/// transactions, with the account it came from.
pub open spec fn unbudgeted_report(month: Seq<(String, Resolved)>, members: Seq<usize>) -> Seq<
    Seq<Seq<char>>,
> {
    members.map_values(
        |i: usize|
            {
                let (account, r) = month[i as int];
                seq![
                    crate::statement::date_text(r.transaction.booked),
                    account@,
                    amount_text(r.transaction.amount.0 as int),
                    match r.hit {
                        Some(h) => if h.name@.len() > 0 {
                            h.name@
                        } else {
                            key_of(r.transaction.descriptor@)
                        },
                        None => key_of(r.transaction.descriptor@),
                    },
                    category_of(r),
                ]
            },
    )
}

pub fn unbudgeted_table(month: &Vec<(String, Resolved)>, members: &Vec<usize>) -> (r: Rows)
    requires
        forall|k: int| 0 <= k < members@.len() ==> (#[trigger] members@[k]) < month@.len(),
    ensures
        string_views(r.headers@) == seq!["date"@, "account"@, "amount"@, "merchant"@, "category"@],
        r.numeric@ == seq![2usize],
        crate::output::row_views(r.rows@) == unbudgeted_report(month@, members@),
{
    let headers = ["date", "account", "amount", "merchant", "category"];
    let mut rows = Rows::new(&headers).right_align(&[2]);
    assert(headers@.map_values(|h: &str| h@) =~= seq!["date"@, "account"@, "amount"@, "merchant"@, "category"@]);
    let ghost each = unbudgeted_report(month@, members@);
    let mut k: usize = 0;
    while k < members.len()
        invariant
            k <= members@.len(),
            forall|q: int| 0 <= q < members@.len() ==> (#[trigger] members@[q]) < month@.len(),
            each == unbudgeted_report(month@, members@),
            rows.numeric@ == seq![2usize],
            string_views(rows.headers@) == seq!["date"@, "account"@, "amount"@, "merchant"@, "category"@],
            crate::output::row_views(rows.rows@) =~= each.take(k as int),
        decreases members.len() - k,
    {
        let (account, r) = &month[members[k]];
        let mut cells: Vec<String> = Vec::new();
        cells.push(r.transaction.booked.to_text());
        cells.push(string_of(&chars_of(account.as_str())));
        cells.push(r.transaction.amount.to_text());
        cells.push(payee(r));
        cells.push(string_of(&chars_of(r.category())));
        assert(string_views(cells@) =~= each[k as int]);
        let ghost before = rows.rows@;
        rows.push(cells);
        assert(crate::output::row_views(rows.rows@) =~= crate::output::row_views(before).push(
            string_views(cells@),
        ));
        assert(each.take(k + 1) =~= each.take(k as int).push(each[k as int]));
        k = k + 1;
    }
    assert(each.take(k as int) =~= each);
    rows
}

/// Why the budget command cannot go on.
#[derive(Debug, Clone, PartialEq, Eq)]
pub enum BudgetCommandError {
    /// No `[budgets]` table in the settings.
    NoDirectory,
    /// `--month` that is not `YYYY-MM`.
    NotAMonth { month: String },
    /// No budget file for the month; the months there are.
    NoBudget { month: String, have: Vec<String> },
}

/// The month to report: the one asked for, if it is one, else this month.
pub fn chosen_month(asked: Option<&str>, this_month: &str) -> (r: Result<String, BudgetCommandError>)
    ensures
        match asked {
            Some(m) => match r {
                Ok(s) => crate::budget::month_text(m@) && s@ == m@,
                Err(e) => !crate::budget::month_text(m@) && (e matches BudgetCommandError::NotAMonth { month } && month@ == m@),
            },
            None => r matches Ok(s) && s@ == this_month@,
        },
{
    match asked {
        Some(m) => if crate::budget::is_month(m) {
            Ok(string_of(&chars_of(m)))
        } else {
            Err(BudgetCommandError::NotAMonth { month: string_of(&chars_of(m)) })
        },
        None => Ok(string_of(&chars_of(this_month))),
    }
}

impl BudgetCommandError {
    /// The error as a sentence, naming the settings file where that helps.
    pub fn message(&self, settings_path: &str) -> (r: String)
        ensures
            r@ == match self {
                BudgetCommandError::NoDirectory => "no budget directory is configured \u{2014} add a [budgets] table with a path to "@ + settings_path@,
                BudgetCommandError::NotAMonth { month } => "--month: "@ + crate::text::debug_quoted_spec(month@) + " is not a month of the form YYYY-MM"@,
                BudgetCommandError::NoBudget { month, have } => "no budget for "@ + month@ + "; there are budgets for: "@ + if have@.len() == 0 {
                    "none"@
                } else {
                    crate::text::joined(string_views(have@), ", "@)
                },
            },
    {
        let mut out: Vec<char> = Vec::new();
        match self {
            BudgetCommandError::NoDirectory => {
                push_str(&mut out, "no budget directory is configured \u{2014} add a [budgets] table with a path to ");
                push_str(&mut out, settings_path);
            },
            BudgetCommandError::NotAMonth { month } => {
                push_str(&mut out, "--month: ");
                push_str(&mut out, crate::text::debug_quoted(month.as_str()).as_str());
                push_str(&mut out, " is not a month of the form YYYY-MM");
            },
            BudgetCommandError::NoBudget { month, have } => {
                push_str(&mut out, "no budget for ");
                push_str(&mut out, month.as_str());
                push_str(&mut out, "; there are budgets for: ");
                if have.len() == 0 {
                    push_str(&mut out, "none");
                } else {
                    let mut parts: Vec<Vec<char>> = Vec::new();
                    let mut i: usize = 0;
                    while i < have.len()
                        invariant
                            i <= have@.len(),
                            crate::text::views(parts@) =~= string_views(have@.take(i as int)),
                        decreases have.len() - i,
                    {
                        let ghost before = parts@;
                        parts.push(chars_of(have[i].as_str()));
                        assert(crate::text::views(parts@) =~= crate::text::views(before).push(have@[i as int]@));
                        assert(have@.take(i + 1) =~= have@.take(i as int).push(have@[i as int]));
                        i = i + 1;
                    }
                    assert(have@.take(i as int) =~= have@);
                    let joined = crate::text::join_first(&parts, parts.len(), ", ");
                    assert(crate::text::views(parts@).take(parts@.len() as int) =~= crate::text::views(parts@));
                    push_chars(&mut out, &joined);
                }
            },
        }
        string_of(&out)
    }
}

// ---- explain, marks and tables --------------------------------------------

/// What explaining a hit says, line by line: the merchant, its category,
/// its tags and provider and note when it has them, and the rule.
pub open spec fn hit_lines(h: Hit) -> Seq<Seq<char>> {
    seq!["merchant    "@ + h.name@, "category    "@ + opt_text(h.category)] + if h.tags@.len() > 0 {
        seq!["tags        "@ + crate::text::joined(string_views(h.tags@), ", "@)]
    } else {
        Seq::empty()
    } + match h.via {
        Some(v) => seq!["via         "@ + v@],
        None => Seq::empty(),
    } + match h.note {
        Some(n) => seq!["note        "@ + n@],
        None => Seq::empty(),
    } + seq!["matched by  "@ + h.rule@ + " in table "@ + h.table@]
}

fn joined_strings(items: &Vec<String>, sep: &str) -> (r: Vec<char>)
    ensures
        r@ == crate::text::joined(string_views(items@), sep@),
{
    let mut parts: Vec<Vec<char>> = Vec::new();
    let mut i: usize = 0;
    while i < items.len()
        invariant
            i <= items@.len(),
            crate::text::views(parts@) =~= string_views(items@.take(i as int)),
        decreases items.len() - i,
    {
        let ghost before = parts@;
        parts.push(chars_of(items[i].as_str()));
        assert(crate::text::views(parts@) =~= crate::text::views(before).push(items@[i as int]@));
        assert(items@.take(i + 1) =~= items@.take(i as int).push(items@[i as int]));
        i = i + 1;
    }
    assert(items@.take(i as int) =~= items@);
    let out = crate::text::join_first(&parts, parts.len(), sep);
    assert(crate::text::views(parts@).take(parts@.len() as int) =~= crate::text::views(parts@));
    out
}

fn line_of(label: &str, value: &str) -> (r: String)
    ensures
        r@ == label@ + value@,
{
    let mut v = chars_of(label);
    push_str(&mut v, value);
    string_of(&v)
}

/// The lines that explain a hit.
pub fn explain_hit(h: &Hit) -> (r: Vec<String>)
    ensures
        string_views(r@) == hit_lines(*h),
{
    let mut out: Vec<String> = Vec::new();
    out.push(line_of("merchant    ", h.name.as_str()));
    match &h.category {
        Some(c) => out.push(line_of("category    ", c.as_str())),
        None => out.push(line_of("category    ", "")),
    }
    proof {
        reveal_strlit("");
        assert(("category    "@ + ""@) =~= "category    "@ + Seq::<char>::empty());
    }
    let ghost a = string_views(out@);
    if h.tags.len() > 0 {
        let tags = joined_strings(&h.tags, ", ");
        let mut v = chars_of("tags        ");
        push_chars(&mut v, &tags);
        out.push(string_of(&v));
    }
    match &h.via {
        Some(via) => out.push(line_of("via         ", via.as_str())),
        None => {},
    }
    match &h.note {
        Some(n) => out.push(line_of("note        ", n.as_str())),
        None => {},
    }
    let mut last = chars_of("matched by  ");
    push_str(&mut last, h.rule.as_str());
    push_str(&mut last, " in table ");
    push_str(&mut last, h.table.as_str());
    out.push(string_of(&last));
    assert(string_views(out@) =~= hit_lines(*h));
    out
}

/// The other rules that also match, less specific first: every candidate
/// after the first.
pub open spec fn other_candidate_lines(cs: Seq<Hit>) -> Seq<Seq<char>> {
    if cs.len() > 1 {
        seq!["other rules that also match, less specific first:"@] + cs.skip(1).map_values(
            |c: Hit| "  "@ + c.name@ + " \u{2014} "@ + c.rule@ + " in table "@ + c.table@,
        )
    } else {
        Seq::empty()
    }
}

pub fn other_candidates(cs: &Vec<Hit>) -> (r: Vec<String>)
    ensures
        string_views(r@) == other_candidate_lines(cs@),
{
    let mut out: Vec<String> = Vec::new();
    if cs.len() <= 1 {
        return out;
    }
    out.push(string_of(&chars_of("other rules that also match, less specific first:")));
    let ghost each = cs@.skip(1).map_values(
        |c: Hit| "  "@ + c.name@ + " \u{2014} "@ + c.rule@ + " in table "@ + c.table@,
    );
    let mut i: usize = 1;
    while i < cs.len()
        invariant
            1 <= i <= cs@.len(),
            each == cs@.skip(1).map_values(
                |c: Hit| "  "@ + c.name@ + " \u{2014} "@ + c.rule@ + " in table "@ + c.table@,
            ),
            string_views(out@) =~= seq!["other rules that also match, less specific first:"@] + each.take(i - 1),
        decreases cs.len() - i,
    {
        let c = &cs[i];
        let mut v = chars_of("  ");
        push_str(&mut v, c.name.as_str());
        push_str(&mut v, " \u{2014} ");
        push_str(&mut v, c.rule.as_str());
        push_str(&mut v, " in table ");
        push_str(&mut v, c.table.as_str());
        assert(v@ =~= each[i - 1]);
        let ghost before = string_views(out@);
        out.push(string_of(&v));
        assert(string_views(out@) =~= before.push(v@));
        assert(each.take(i as int) =~= each.take(i - 1).push(each[i - 1]));
        i = i + 1;
    }
    assert(each.take(i - 1) =~= each);
    out
}

/// What a mark does, for the marks listing: its category, `= merchant`,
/// and each tag as `#tag`, joined by spaces.
pub open spec fn effect_parts(m: crate::marks::Mark) -> Seq<Seq<char>> {
    let category: Seq<Seq<char>> = match m.category {
        Some(c) => seq![c@],
        None => Seq::empty(),
    };
    let merchant: Seq<Seq<char>> = match m.merchant {
        Some(n) => seq!["= "@ + n@],
        None => Seq::empty(),
    };
    category + merchant + string_views(m.tags@).map_values(|t: Seq<char>| seq!['#'] + t)
}

pub fn mark_effect(m: &crate::marks::Mark) -> (r: String)
    ensures
        r@ == crate::text::joined(effect_parts(*m), " "@),
{
    let mut parts: Vec<Vec<char>> = Vec::new();
    match &m.category {
        Some(c) => parts.push(chars_of(c.as_str())),
        None => {},
    }
    match &m.merchant {
        Some(n) => {
            let mut v = chars_of("= ");
            push_str(&mut v, n.as_str());
            parts.push(v);
        },
        None => {},
    }
    let ghost head = crate::text::views(parts@);
    let ghost tags = string_views(m.tags@).map_values(|t: Seq<char>| seq!['#'] + t);
    let mut i: usize = 0;
    while i < m.tags.len()
        invariant
            i <= m.tags@.len(),
            tags == string_views(m.tags@).map_values(|t: Seq<char>| seq!['#'] + t),
            crate::text::views(parts@) =~= head + tags.take(i as int),
        decreases m.tags.len() - i,
    {
        let mut v: Vec<char> = Vec::new();
        v.push('#');
        push_str(&mut v, m.tags[i].as_str());
        assert(v@ =~= tags[i as int]);
        let ghost before = parts@;
        parts.push(v);
        assert(crate::text::views(parts@) =~= crate::text::views(before).push(tags[i as int]));
        assert(tags.take(i + 1) =~= tags.take(i as int).push(tags[i as int]));
        i = i + 1;
    }
    assert(tags.take(i as int) =~= tags);
    assert(head + tags =~= effect_parts(*m));
    let out = crate::text::join_first(&parts, parts.len(), " ");
    assert(crate::text::views(parts@).take(parts@.len() as int) =~= crate::text::views(parts@));
    string_of(&out)
}

/// How many transactions each mark caught, from what the marks did to
/// each transaction.
pub open spec fn hits_of(applied: Seq<Seq<usize>>, mark: int) -> int
    decreases applied.len(),
{
    if applied.len() == 0 {
        0
    } else {
        hits_of(applied.drop_last(), mark) + if applied.last().contains(mark as usize) {
            1int
        } else {
            0int
        }
    }
}

pub open spec fn applied_views(ms: Seq<crate::marks::Marked>) -> Seq<Seq<usize>> {
    ms.map_values(|m: crate::marks::Marked| m.applied@)
}

proof fn lemma_hits_bound(applied: Seq<Seq<usize>>, mark: int)
    ensures
        0 <= hits_of(applied, mark) <= applied.len(),
    decreases applied.len(),
{
    if applied.len() > 0 {
        lemma_hits_bound(applied.drop_last(), mark);
    }
}

/// For each of `count` marks, how many of the transactions it applied to.
pub fn mark_hits(count: usize, marked: &Vec<crate::marks::Marked>) -> (r: Vec<usize>)
    ensures
        r@.len() == count,
        forall|k: int| 0 <= k < count ==> #[trigger] r@[k] == hits_of(applied_views(marked@), k),
{
    let ghost av = applied_views(marked@);
    let mut out: Vec<usize> = Vec::new();
    let mut k: usize = 0;
    while k < count
        invariant
            k <= count,
            av == applied_views(marked@),
            out@.len() == k,
            forall|q: int| 0 <= q < k ==> #[trigger] out@[q] == hits_of(av, q),
        decreases count - k,
    {
        let mut n: usize = 0;
        let mut i: usize = 0;
        while i < marked.len()
            invariant
                i <= marked@.len(),
                k < count,
                av == applied_views(marked@),
                n == hits_of(av.take(i as int), k as int),
                n <= i,
            decreases marked.len() - i,
        {
            assert(av.take(i + 1).drop_last() =~= av.take(i as int));
            assert(av.take(i + 1).last() == marked@[i as int].applied@);
            let applied = &marked[i].applied;
            let mut found = false;
            let mut j: usize = 0;
            while j < applied.len()
                invariant
                    j <= applied@.len(),
                    found == exists|q: int| 0 <= q < j && applied@[q] == k,
                decreases applied.len() - j,
            {
                if applied[j] == k {
                    found = true;
                }
                j = j + 1;
            }
            assert(found == applied@.contains(k)) by {
                if applied@.contains(k) {
                    let q = choose|q: int| 0 <= q < applied@.len() && applied@[q] == k;
                    assert(0 <= q < j && applied@[q] == k);
                }
            }
            if found {
                n = n + 1;
            }
            i = i + 1;
        }
        assert(av.take(i as int) =~= av);
        out.push(n);
        k = k + 1;
    }
    out
}

/// The tables' merchants, under `merchant, category, table, note`.
pub open spec fn merchants_report(es: Seq<crate::matcher::Entry>) -> Seq<Seq<Seq<char>>> {
    es.map_values(
        |e: crate::matcher::Entry| seq![e.name@, opt_text(e.category), e.table@, opt_text(e.note)],
    )
}

pub fn merchants_table(matcher: &Matcher) -> (r: Rows)
    ensures
        string_views(r.headers@) == seq!["merchant"@, "category"@, "table"@, "note"@],
        r.numeric@.len() == 0,
        crate::output::row_views(r.rows@) == merchants_report(matcher.entries@),
{
    let headers = ["merchant", "category", "table", "note"];
    let mut rows = Rows::new(&headers);
    assert(headers@.map_values(|h: &str| h@) =~= seq!["merchant"@, "category"@, "table"@, "note"@]);
    let ms = matcher.merchants();
    let ghost each = merchants_report(matcher.entries@);
    proof {
        reveal_strlit("");
    }
    let mut i: usize = 0;
    while i < ms.len()
        invariant
            i <= ms@.len(),
            ms == &matcher.entries,
            each == merchants_report(matcher.entries@),
            rows.numeric@.len() == 0,
            string_views(rows.headers@) == seq!["merchant"@, "category"@, "table"@, "note"@],
            crate::output::row_views(rows.rows@) =~= each.take(i as int),
        decreases ms.len() - i,
    {
        let e = &ms[i];
        let mut cells: Vec<String> = Vec::new();
        cells.push(string_of(&chars_of(e.name.as_str())));
        cells.push(
            match &e.category {
                Some(c) => string_of(&chars_of(c.as_str())),
                None => String::new(),
            },
        );
        cells.push(string_of(&chars_of(e.table.as_str())));
        cells.push(
            match &e.note {
                Some(n) => string_of(&chars_of(n.as_str())),
                None => String::new(),
            },
        );
        assert(string_views(cells@) =~= each[i as int]);
        let ghost before = rows.rows@;
        rows.push(cells);
        assert(crate::output::row_views(rows.rows@) =~= crate::output::row_views(before).push(
            string_views(cells@),
        ));
        assert(each.take(i + 1) =~= each.take(i as int).push(each[i as int]));
        i = i + 1;
    }
    assert(each.take(i as int) =~= each);
    rows
}

/// What the tables command says of the loaded tables: how many and which,
/// then how many merchants and rules.
pub open spec fn tables_lines(m: Matcher) -> Seq<Seq<char>> {
    seq![
        decimal(m.table_names@.len()) + " tables loaded: "@ + crate::text::joined(
            string_views(m.table_names@),
            ", "@,
        ),
        decimal(m.entries@.len()) + " merchants, "@ + decimal(m.rules@.len()) + " match rules"@,
    ]
}

pub fn tables_summary(matcher: &Matcher) -> (r: Vec<String>)
    ensures
        string_views(r@) == tables_lines(*matcher),
{
    let names = matcher.table_names();
    let mut first = decimal_chars(names.len() as u64);
    push_str(&mut first, " tables loaded: ");
    let joined = joined_strings(names, ", ");
    push_chars(&mut first, &joined);
    let mut second = decimal_chars(matcher.merchant_count() as u64);
    push_str(&mut second, " merchants, ");
    push_chars(&mut second, &decimal_chars(matcher.rule_count() as u64));
    push_str(&mut second, " match rules");
    let mut out: Vec<String> = Vec::new();
    out.push(string_of(&first));
    out.push(string_of(&second));
    assert(string_views(out@) =~= tables_lines(*matcher));
    out
}

} // verus!
