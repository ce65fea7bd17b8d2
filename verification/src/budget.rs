//! Monthly budgets: one file per month, `YYYY-MM.yaml`, and the sorting of
//! a month's transactions into the lines of its file.
//!
//! A transaction goes to the single most specific line: one naming the
//! transaction's merchant beats one that does not, then the deepest
//! category that holds the transaction's, then the first in the file.
//! Income lines take transactions whose top-level category is `income`;
//! budget rows take everything else. What no row takes is ignored if it
//! only moves money and is unbudgeted otherwise.

use vstd::prelude::*;

use crate::amount::Amount;
use crate::category::{depth, depth_of, is_spending, is_within, spending, top, top_of, within};
use crate::text::{all_digits, chars_of, digits_value, is_digit, str_eq};

verus! {

/// One planned amount: a row of spending, or a line of income.
#[derive(Debug, Clone)]
pub struct Line {
    pub name: String,
    pub category: String,
    /// Narrows the line to transactions whose resolved merchant is this.
    pub merchant: Option<String>,
    /// Planned, as a positive number: money out for a row, in for income.
    pub amount: Amount,
    /// Where the number came from: fixed, average, estimate. Free text.
    pub basis: Option<String>,
    pub note: Option<String>,
}

/// One month's budget file, read and checked.
#[derive(Debug, Clone)]
pub struct Budget {
    /// `YYYY-MM`, from the file name.
    pub month: String,
    pub path: String,
    pub income: Vec<Line>,
    pub rows: Vec<Line>,
}

/// Every budget in the directory, oldest first, and what was wrong with
/// the files that were skipped or looked odd.
#[derive(Debug, Default)]
pub struct Budgets {
    pub budgets: Vec<Budget>,
    pub warnings: Vec<String>,
}

/// What the sorting needs to know about a transaction.
#[derive(Debug, Clone, Copy)]
pub struct Item<'a> {
    pub category: &'a str,
    pub merchant: &'a str,
    pub amount: Amount,
}

/// Where a transaction went.
#[derive(Debug, Clone, Copy, PartialEq, Eq, Structural)]
pub enum Slot {
    Income(usize),
    Row(usize),
    Unbudgeted,
    Ignored,
}

/// A line's actual figure and the transactions behind it, by their index
/// in what was sorted.
#[derive(Debug, Clone, PartialEq, Eq)]
pub struct Tally {
    /// Received, for income; spent, for a row or the unbudgeted bucket.
    /// A refund in a budgeted category makes spent smaller.
    pub actual: Amount,
    pub members: Vec<usize>,
}

#[derive(Debug, Clone, PartialEq, Eq)]
pub struct Outcome {
    pub income: Vec<Tally>,
    pub rows: Vec<Tally>,
    pub unbudgeted: Tally,
}

// ---- months ---------------------------------------------------------

/// `YYYY-MM` with a month from 01 to 12.
pub open spec fn month_text(s: Seq<char>) -> bool {
    &&& s.len() == 7
    &&& s[4] == '-'
    &&& forall|i: int| 0 <= i < 7 && i != 4 ==> is_digit(#[trigger] s[i])
    &&& 1 <= digits_value(s.subrange(5, 7)) <= 12
}

pub fn is_month(text: &str) -> (r: bool)
    ensures
        r == month_text(text@),
{
    let s = chars_of(text);
    if s.len() != 7 || s[4] != '-' {
        return false;
    }
    let mut i: usize = 0;
    while i < 7
        invariant
            s@.len() == 7,
            0 <= i <= 7,
            forall|j: int| 0 <= j < i && j != 4 ==> is_digit(#[trigger] s@[j]),
            s@ == text@,
        decreases 7 - i,
    {
        if i != 4 && !('0' <= s[i] && s[i] <= '9') {
            return false;
        }
        i = i + 1;
    }
    let tens = (s[5] as u32 - '0' as u32);
    let ones = (s[6] as u32 - '0' as u32);
    let m = tens * 10 + ones;
    proof {
        let sub = s@.subrange(5, 7);
        assert(sub.drop_last() =~= seq![s@[5]]);
        assert(seq![s@[5]].drop_last() =~= Seq::<char>::empty());
        assert(digits_value(sub) == digits_value(sub.drop_last()) * 10 + (s@[6] as int - '0' as int));
        let one = seq![s@[5]];
        assert(one.last() == s@[5]);
        assert(digits_value(one.drop_last()) == 0);
        assert(digits_value(one) == s@[5] as int - '0' as int);
    }
    1 <= m && m <= 12
}

pub open spec fn yaml_suffix() -> Seq<char> {
    seq!['.', 'y', 'a', 'm', 'l']
}

/// The month a budget file is for, by its name: `2026-10` for
/// `2026-10.yaml`, and nothing for any other name.
pub open spec fn month_of_name(name: Seq<char>) -> Option<Seq<char>> {
    if name.len() >= 5 && name.subrange(name.len() - 5, name.len() as int) == yaml_suffix()
        && month_text(name.subrange(0, name.len() - 5)) {
        Some(name.subrange(0, name.len() - 5))
    } else {
        None
    }
}

pub fn month_of_file_name(name: &str) -> (r: Option<String>)
    ensures
        match r {
            Some(m) => month_of_name(name@) == Some(m@),
            None => month_of_name(name@).is_none(),
        },
{
    let s = chars_of(name);
    let n = s.len();
    if n < 5 {
        return None;
    }
    let suffix = ['.', 'y', 'a', 'm', 'l'];
    let tail = crate::text::slice_vec(&s, n - 5, n);
    assert(suffix@ =~= yaml_suffix());
    if !crate::text::chars_eq(&tail, &suffix) {
        return None;
    }
    let head = crate::text::slice_vec(&s, 0, n - 5);
    let month = crate::text::string_of(&head);
    if is_month(month.as_str()) {
        Some(month)
    } else {
        None
    }
}

impl Budgets {
    /// The budget for a month, the first one if somehow there are two.
    pub fn month(&self, month: &str) -> (r: Option<&Budget>)
        ensures
            match r {
                Some(b) => exists|i: int|
                    0 <= i < self.budgets@.len() && *b == self.budgets@[i]
                        && self.budgets@[i].month@ == month@ && forall|j: int|
                        0 <= j < i ==> (#[trigger] self.budgets@[j]).month@ != month@,
                None => forall|i: int|
                    0 <= i < self.budgets@.len() ==> (#[trigger] self.budgets@[i]).month@
                        != month@,
            },
    {
        let mut i: usize = 0;
        while i < self.budgets.len()
            invariant
                0 <= i <= self.budgets@.len(),
                forall|j: int| 0 <= j < i ==> (#[trigger] self.budgets@[j]).month@ != month@,
            decreases self.budgets.len() - i,
        {
            if str_eq(self.budgets[i].month.as_str(), month) {
                return Some(&self.budgets[i]);
            }
            i = i + 1;
        }
        None
    }
}

// ---- sorting ---------------------------------------------------------

/// A line takes the transaction: its category holds the transaction's, and
/// it names no merchant or the transaction's merchant.
pub open spec fn takes(line: Line, item: Item) -> bool {
    &&& within(item.category@, line.category@)
    &&& match line.merchant {
        Some(m) => m@ == item.merchant@,
        None => true,
    }
}

/// How specific a line is: naming a merchant first, then depth.
pub open spec fn outranks(a: Line, b: Line) -> bool {
    ||| (a.merchant.is_some() && b.merchant.is_none())
    ||| (a.merchant.is_some() == b.merchant.is_some() && depth_of(a.category@) > depth_of(
        b.category@,
    ))
}

/// `i` is the most specific line that takes the item, the first of equals.
pub open spec fn is_best_line(lines: Seq<Line>, item: Item, i: int) -> bool {
    &&& 0 <= i < lines.len()
    &&& takes(lines[i], item)
    &&& forall|j: int| 0 <= j < lines.len() && takes(lines[j], item) ==> !outranks(lines[j], lines[i])
    &&& forall|j: int| 0 <= j < i && takes(lines[j], item) ==> outranks(lines[i], lines[j])
}

pub open spec fn no_line_takes(lines: Seq<Line>, item: Item) -> bool {
    forall|j: int| 0 <= j < lines.len() ==> !takes(#[trigger] lines[j], item)
}

/// Where a transaction goes in a budget.
pub open spec fn slot_of(budget: Budget, item: Item) -> Slot {
    if top_of(item.category@) == seq!['i', 'n', 'c', 'o', 'm', 'e'] {
        if no_line_takes(budget.income@, item) {
            Slot::Ignored
        } else {
            Slot::Income((choose|i: int| is_best_line(budget.income@, item, i)) as usize)
        }
    } else if !no_line_takes(budget.rows@, item) {
        Slot::Row((choose|i: int| is_best_line(budget.rows@, item, i)) as usize)
    } else if spending(item.category@) {
        Slot::Unbudgeted
    } else {
        Slot::Ignored
    }
}

/// The best line among the first `n`, or -1 when none of them takes the item.
spec fn best_upto(lines: Seq<Line>, item: Item, n: int) -> int
    decreases n,
{
    if n <= 0 {
        -1
    } else {
        let p = best_upto(lines, item, n - 1);
        if takes(lines[n - 1], item) && (p < 0 || outranks(lines[n - 1], lines[p])) {
            n - 1
        } else {
            p
        }
    }
}

proof fn lemma_best_upto(lines: Seq<Line>, item: Item, n: int)
    requires
        0 <= n <= lines.len(),
    ensures
        best_upto(lines, item, n) < n,
        best_upto(lines, item, n) < 0 ==> forall|j: int| 0 <= j < n ==> !takes(#[trigger] lines[j], item),
        best_upto(lines, item, n) >= 0 ==> {
            let b = best_upto(lines, item, n);
            &&& takes(lines[b], item)
            &&& forall|j: int| 0 <= j < n && takes(lines[j], item) ==> !outranks(lines[j], lines[b])
            &&& forall|j: int| 0 <= j < b && takes(lines[j], item) ==> outranks(lines[b], lines[j])
        },
    decreases n,
{
    if n > 0 {
        lemma_best_upto(lines, item, n - 1);
    }
}

/// Whenever some line takes the item, a best one exists.
proof fn lemma_best_exists(lines: Seq<Line>, item: Item)
    requires
        !no_line_takes(lines, item),
    ensures
        exists|i: int| is_best_line(lines, item, i),
{
    lemma_best_upto(lines, item, lines.len() as int);
    let b = best_upto(lines, item, lines.len() as int);
    assert(is_best_line(lines, item, b));
}

proof fn lemma_best_unique(lines: Seq<Line>, item: Item, i: int, k: int)
    requires
        is_best_line(lines, item, i),
        is_best_line(lines, item, k),
    ensures
        i == k,
{
    if i < k {
        assert(outranks(lines[k], lines[i]));
        assert(!outranks(lines[k], lines[i]));
    } else if k < i {
        assert(outranks(lines[i], lines[k]));
    }
}

fn line_takes(line: &Line, item: &Item) -> (r: bool)
    ensures
        r == takes(*line, *item),
{
    if !is_within(item.category, line.category.as_str()) {
        return false;
    }
    match &line.merchant {
        Some(m) => str_eq(m.as_str(), item.merchant),
        None => true,
    }
}

/// The most specific line that takes the transaction: a matching merchant
/// first, then the deepest category, then the first in the file.
fn best_line(lines: &Vec<Line>, item: &Item) -> (r: Option<usize>)
    requires
        forall|j: int| 0 <= j < lines@.len() ==> (#[trigger] lines@[j]).category@.len() < usize::MAX,
    ensures
        match r {
            Some(i) => is_best_line(lines@, *item, i as int),
            None => no_line_takes(lines@, *item),
        },
{
    let mut best: Option<usize> = None;
    let mut best_has_merchant = false;
    let mut best_depth: usize = 0;
    let mut i: usize = 0;
    while i < lines.len()
        invariant
            0 <= i <= lines@.len(),
            forall|j: int| 0 <= j < lines@.len() ==> (#[trigger] lines@[j]).category@.len() < usize::MAX,
            match best {
                Some(b) => {
                    &&& b < i
                    &&& takes(lines@[b as int], *item)
                    &&& best_has_merchant == lines@[b as int].merchant.is_some()
                    &&& best_depth == depth_of(lines@[b as int].category@)
                    &&& forall|j: int|
                        0 <= j < i && takes(lines@[j], *item) ==> !outranks(lines@[j], lines@[b as int])
                    &&& forall|j: int|
                        0 <= j < b && takes(lines@[j], *item) ==> outranks(lines@[b as int], lines@[j])
                },
                None => forall|j: int| 0 <= j < i ==> !takes(#[trigger] lines@[j], *item),
            },
        decreases lines.len() - i,
    {
        let line = &lines[i];
        if line_takes(line, item) {
            let has_merchant = line.merchant.is_some();
            let d = depth(line.category.as_str());
            let better = match best {
                None => true,
                Some(_) => (has_merchant && !best_has_merchant) || (has_merchant == best_has_merchant
                    && d > best_depth),
            };
            if better {
                best = Some(i);
                best_has_merchant = has_merchant;
                best_depth = d;
            }
        }
        i = i + 1;
    }
    best
}

pub fn assign(budget: &Budget, item: &Item) -> (r: Slot)
    requires
        forall|j: int|
            0 <= j < budget.income@.len() ==> (#[trigger] budget.income@[j]).category@.len()
                < usize::MAX,
        forall|j: int|
            0 <= j < budget.rows@.len() ==> (#[trigger] budget.rows@[j]).category@.len()
                < usize::MAX,
    ensures
        r == slot_of(*budget, *item),
{
    let income = ['i', 'n', 'c', 'o', 'm', 'e'];
    let t = chars_of(top(item.category));
    assert(income@ =~= seq!['i', 'n', 'c', 'o', 'm', 'e']);
    if crate::text::chars_eq(&t, &income) {
        return match best_line(&budget.income, item) {
            Some(i) => {
                proof {
                    let k = choose|k: int| is_best_line(budget.income@, *item, k);
                    lemma_best_unique(budget.income@, *item, i as int, k);
                }
                Slot::Income(i)
            },
            None => Slot::Ignored,
        };
    }
    match best_line(&budget.rows, item) {
        Some(i) => {
            proof {
                let k = choose|k: int| is_best_line(budget.rows@, *item, k);
                lemma_best_unique(budget.rows@, *item, i as int, k);
            }
            Slot::Row(i)
        },
        None => if is_spending(item.category) {
            Slot::Unbudgeted
        } else {
            Slot::Ignored
        },
    }
}

/// The indices, among the first `n` items, of those that go to `slot`.
pub open spec fn members_of(budget: Budget, items: Seq<Item>, slot: Slot, n: int) -> Seq<usize>
    decreases n,
{
    if n <= 0 {
        Seq::empty()
    } else if slot_of(budget, items[n - 1]) == slot {
        members_of(budget, items, slot, n - 1).push((n - 1) as usize)
    } else {
        members_of(budget, items, slot, n - 1)
    }
}

/// How an item counts towards its line: received for income, spent for
/// everything else.
pub open spec fn contribution(item: Item, slot: Slot) -> int {
    match slot {
        Slot::Income(_) => item.amount.0 as int,
        _ => -(item.amount.0 as int),
    }
}

/// The total, over the first `n` items, of what goes to `slot`.
pub open spec fn actual_of(budget: Budget, items: Seq<Item>, slot: Slot, n: int) -> int
    decreases n,
{
    if n <= 0 {
        0
    } else if slot_of(budget, items[n - 1]) == slot {
        actual_of(budget, items, slot, n - 1) + contribution(items[n - 1], slot)
    } else {
        actual_of(budget, items, slot, n - 1)
    }
}

/// The sum of the sizes of the first `n` amounts.
pub open spec fn size_of_items(items: Seq<Item>, n: int) -> int
    decreases n,
{
    if n <= 0 {
        0
    } else {
        size_of_items(items, n - 1) + if items[n - 1].amount.0 < 0 {
            -(items[n - 1].amount.0 as int)
        } else {
            items[n - 1].amount.0 as int
        }
    }
}

proof fn lemma_actual_bounded(budget: Budget, items: Seq<Item>, slot: Slot, n: int)
    requires
        0 <= n <= items.len(),
    ensures
        -size_of_items(items, n) <= actual_of(budget, items, slot, n) <= size_of_items(items, n),
        size_of_items(items, n) >= 0,
    decreases n,
{
    if n > 0 {
        lemma_actual_bounded(budget, items, slot, n - 1);
    }
}

proof fn lemma_size_monotone(items: Seq<Item>, m: int, n: int)
    requires
        0 <= m <= n <= items.len(),
    ensures
        size_of_items(items, m) <= size_of_items(items, n),
    decreases n - m,
{
    if m < n {
        lemma_size_monotone(items, m, n - 1);
    }
}

/// The tally of one slot over all the items: who went there and the total.
fn tally_slot(budget: &Budget, items: &[Item], slot: Slot) -> (t: Tally)
    requires
        size_of_items(items@, items@.len() as int) <= i64::MAX,
        forall|j: int|
            0 <= j < budget.income@.len() ==> (#[trigger] budget.income@[j]).category@.len()
                < usize::MAX,
        forall|j: int|
            0 <= j < budget.rows@.len() ==> (#[trigger] budget.rows@[j]).category@.len()
                < usize::MAX,
    ensures
        t.members@ == members_of(*budget, items@, slot, items@.len() as int),
        t.actual.0 == actual_of(*budget, items@, slot, items@.len() as int),
{
    let mut sum: i64 = 0;
    let mut members: Vec<usize> = Vec::new();
    let mut k: usize = 0;
    while k < items.len()
        invariant
            0 <= k <= items@.len(),
            size_of_items(items@, items@.len() as int) <= i64::MAX,
            forall|j: int|
                0 <= j < budget.income@.len() ==> (#[trigger] budget.income@[j]).category@.len()
                    < usize::MAX,
            forall|j: int|
                0 <= j < budget.rows@.len() ==> (#[trigger] budget.rows@[j]).category@.len()
                    < usize::MAX,
            members@ == members_of(*budget, items@, slot, k as int),
            sum == actual_of(*budget, items@, slot, k as int),
        decreases items.len() - k,
    {
        let item = &items[k];
        let s = assign(budget, item);
        proof {
            lemma_size_monotone(items@, k + 1, items@.len() as int);
            lemma_actual_bounded(*budget, items@, slot, k + 1);
            lemma_actual_bounded(*budget, items@, slot, k as int);
        }
        if s == slot {
            let delta: i64 = match slot {
                Slot::Income(_) => item.amount.0,
                _ => -item.amount.0,
            };
            sum = sum + delta;
            members.push(k);
        }
        k = k + 1;
    }
    Tally { actual: Amount(sum), members }
}

/// Sort a month's transactions into the budget's lines: for each income
/// line, each row and the unbudgeted bucket, the transactions that went
/// there and their total.
pub fn tally(budget: &Budget, items: &[Item]) -> (out: Outcome)
    requires
        size_of_items(items@, items@.len() as int) <= i64::MAX,
        forall|j: int|
            0 <= j < budget.income@.len() ==> (#[trigger] budget.income@[j]).category@.len()
                < usize::MAX,
        forall|j: int|
            0 <= j < budget.rows@.len() ==> (#[trigger] budget.rows@[j]).category@.len()
                < usize::MAX,
    ensures
        out.income@.len() == budget.income@.len(),
        out.rows@.len() == budget.rows@.len(),
        forall|i: int|
            0 <= i < budget.income@.len() ==> {
                &&& (#[trigger] out.income@[i]).members@ == members_of(
                    *budget,
                    items@,
                    Slot::Income(i as usize),
                    items@.len() as int,
                )
                &&& out.income@[i].actual.0 == actual_of(
                    *budget,
                    items@,
                    Slot::Income(i as usize),
                    items@.len() as int,
                )
            },
        forall|i: int|
            0 <= i < budget.rows@.len() ==> {
                &&& (#[trigger] out.rows@[i]).members@ == members_of(
                    *budget,
                    items@,
                    Slot::Row(i as usize),
                    items@.len() as int,
                )
                &&& out.rows@[i].actual.0 == actual_of(
                    *budget,
                    items@,
                    Slot::Row(i as usize),
                    items@.len() as int,
                )
            },
        out.unbudgeted.members@ == members_of(
            *budget,
            items@,
            Slot::Unbudgeted,
            items@.len() as int,
        ),
        out.unbudgeted.actual.0 == actual_of(
            *budget,
            items@,
            Slot::Unbudgeted,
            items@.len() as int,
        ),
{
    let ghost n = items@.len() as int;
    let mut income: Vec<Tally> = Vec::new();
    let mut i: usize = 0;
    while i < budget.income.len()
        invariant
            0 <= i <= budget.income@.len(),
            n == items@.len(),
            size_of_items(items@, n) <= i64::MAX,
            forall|j: int|
                0 <= j < budget.income@.len() ==> (#[trigger] budget.income@[j]).category@.len()
                    < usize::MAX,
            forall|j: int|
                0 <= j < budget.rows@.len() ==> (#[trigger] budget.rows@[j]).category@.len()
                    < usize::MAX,
            income@.len() == i,
            forall|j: int|
                0 <= j < i ==> {
                    &&& (#[trigger] income@[j]).members@ == members_of(
                        *budget,
                        items@,
                        Slot::Income(j as usize),
                        n,
                    )
                    &&& income@[j].actual.0 == actual_of(*budget, items@, Slot::Income(j as usize), n)
                },
        decreases budget.income@.len() - i,
    {
        income.push(tally_slot(budget, items, Slot::Income(i)));
        i = i + 1;
    }
    let mut rows: Vec<Tally> = Vec::new();
    let mut i: usize = 0;
    while i < budget.rows.len()
        invariant
            0 <= i <= budget.rows@.len(),
            n == items@.len(),
            size_of_items(items@, n) <= i64::MAX,
            forall|j: int|
                0 <= j < budget.income@.len() ==> (#[trigger] budget.income@[j]).category@.len()
                    < usize::MAX,
            forall|j: int|
                0 <= j < budget.rows@.len() ==> (#[trigger] budget.rows@[j]).category@.len()
                    < usize::MAX,
            rows@.len() == i,
            forall|j: int|
                0 <= j < i ==> {
                    &&& (#[trigger] rows@[j]).members@ == members_of(
                        *budget,
                        items@,
                        Slot::Row(j as usize),
                        n,
                    )
                    &&& rows@[j].actual.0 == actual_of(*budget, items@, Slot::Row(j as usize), n)
                },
        decreases budget.rows@.len() - i,
    {
        rows.push(tally_slot(budget, items, Slot::Row(i)));
        i = i + 1;
    }
    let unbudgeted = tally_slot(budget, items, Slot::Unbudgeted);
    Outcome { income, rows, unbudgeted }
}


// ---- reading a budget file -------------------------------------------

/// The only schema version this build reads.
pub const BUDGET_VERSION: u32 = 1;

/// A budget file as written.
#[derive(Debug, Clone)]
pub struct BudgetFile {
    pub version: u32,
    pub month: String,
    pub income: Vec<Line>,
    pub rows: Vec<Line>,
}

#[derive(Debug, Clone, Copy, PartialEq, Eq, Structural)]
pub enum LineKind {
    Income,
    Row,
}

/// Something odd about a budget file that does not stop it loading.
#[derive(Debug, Clone, PartialEq, Eq)]
pub enum BudgetWarning {
    /// The file says one month and is named for another; the name wins.
    MonthMismatch { says: String, named: String },
    /// A line with a blank category.
    NoCategory { kind: LineKind, name: String },
    /// A line planned as a negative amount.
    NegativeAmount { kind: LineKind, name: String },
    /// An income line whose category is not under `income`, which
    /// nothing can reach.
    NotIncome { name: String, category: String },
}

pub enum WarningView {
    MonthMismatch(Seq<char>, Seq<char>),
    NoCategory(LineKind, Seq<char>),
    NegativeAmount(LineKind, Seq<char>),
    NotIncome(Seq<char>, Seq<char>),
}

impl View for BudgetWarning {
    type V = WarningView;

    open spec fn view(&self) -> WarningView {
        match self {
            BudgetWarning::MonthMismatch { says, named } => WarningView::MonthMismatch(
                says@,
                named@,
            ),
            BudgetWarning::NoCategory { kind, name } => WarningView::NoCategory(*kind, name@),
            BudgetWarning::NegativeAmount { kind, name } => WarningView::NegativeAmount(
                *kind,
                name@,
            ),
            BudgetWarning::NotIncome { name, category } => WarningView::NotIncome(
                name@,
                category@,
            ),
        }
    }
}

pub open spec fn warning_views(ws: Seq<BudgetWarning>) -> Seq<WarningView> {
    ws.map_values(|w: BudgetWarning| w@)
}

/// The warnings about each line: a blank category, then a negative
/// amount.
pub open spec fn line_warnings(kind: LineKind, lines: Seq<Line>) -> Seq<WarningView>
    decreases lines.len(),
{
    if lines.len() == 0 {
        Seq::empty()
    } else {
        let l = lines.last();
        let a = if crate::text::is_blank(l.category@) {
            seq![WarningView::NoCategory(kind, l.name@)]
        } else {
            Seq::empty()
        };
        let b = if l.amount.0 < 0 {
            seq![WarningView::NegativeAmount(kind, l.name@)]
        } else {
            Seq::empty()
        };
        line_warnings(kind, lines.drop_last()) + a + b
    }
}

/// The income lines that nothing can reach.
pub open spec fn outside_income(lines: Seq<Line>) -> Seq<WarningView>
    decreases lines.len(),
{
    if lines.len() == 0 {
        Seq::empty()
    } else {
        let l = lines.last();
        if top_of(l.category@) == seq!['i', 'n', 'c', 'o', 'm', 'e'] {
            outside_income(lines.drop_last())
        } else {
            outside_income(lines.drop_last()).push(WarningView::NotIncome(l.name@, l.category@))
        }
    }
}

/// Everything worth warning about in a file named for `month`, in order.
pub open spec fn budget_warnings(file: BudgetFile, month: Seq<char>) -> Seq<WarningView> {
    let m = if file.month@ != month {
        seq![WarningView::MonthMismatch(file.month@, month)]
    } else {
        Seq::empty()
    };
    m + line_warnings(LineKind::Income, file.income@) + line_warnings(LineKind::Row, file.rows@)
        + outside_income(file.income@)
}

/// A version this build does not read.
#[derive(Debug, Clone, PartialEq, Eq)]
pub struct UnsupportedBudgetVersion {
    pub version: u32,
}

fn warn_lines(kind: LineKind, lines: &Vec<Line>, out: &mut Vec<BudgetWarning>)
    ensures
        warning_views(final(out)@) == warning_views(old(out)@) + line_warnings(kind, lines@),
{
    let ghost start = warning_views(out@);
    let mut i: usize = 0;
    assert(lines@.take(0) =~= Seq::<Line>::empty());
    assert(warning_views(out@) =~= start + line_warnings(kind, lines@.take(0)));
    while i < lines.len()
        invariant
            i <= lines@.len(),
            warning_views(out@) == start + line_warnings(kind, lines@.take(i as int)),
        decreases lines.len() - i,
    {
        assert(lines@.take(i + 1).drop_last() =~= lines@.take(i as int));
        assert(lines@.take(i + 1).last() == lines@[i as int]);
        let l = &lines[i];
        let ghost before = warning_views(out@);
        if crate::text::blank(&chars_of(l.category.as_str())) {
            out.push(BudgetWarning::NoCategory { kind, name: l.name.clone() });
        }
        let ghost mid = warning_views(out@);
        assert(mid =~= before + if crate::text::is_blank(l.category@) {
            seq![WarningView::NoCategory(kind, l.name@)]
        } else {
            Seq::<WarningView>::empty()
        });
        if l.amount.is_negative() {
            out.push(BudgetWarning::NegativeAmount { kind, name: l.name.clone() });
        }
        assert(warning_views(out@) =~= mid + if l.amount.0 < 0 {
            seq![WarningView::NegativeAmount(kind, l.name@)]
        } else {
            Seq::<WarningView>::empty()
        });
        i = i + 1;
    }
    assert(lines@.take(i as int) =~= lines@);
}

/// Reads a budget file that parsed, named for `month` and found at
/// `path`: the name decides the month. Returns the budget and what was
/// odd about the file, or the version if this build cannot read it.
pub fn check_budget(file: BudgetFile, month: &str, path: &str) -> (r: Result<
    (Budget, Vec<BudgetWarning>),
    UnsupportedBudgetVersion,
>)
    ensures
        match r {
            Ok((b, ws)) => file.version == BUDGET_VERSION && b.month@ == month@ && b.path@ == path@
                && b.income == file.income && b.rows == file.rows && warning_views(ws@)
                == budget_warnings(file, month@),
            Err(e) => file.version != BUDGET_VERSION && e.version == file.version,
        },
{
    if file.version != BUDGET_VERSION {
        return Err(UnsupportedBudgetVersion { version: file.version });
    }
    let mut warnings: Vec<BudgetWarning> = Vec::new();
    if !str_eq(file.month.as_str(), month) {
        warnings.push(
            BudgetWarning::MonthMismatch {
                says: file.month.clone(),
                named: crate::text::string_of(&chars_of(month)),
            },
        );
    }
    let ghost m = warning_views(warnings@);
    warn_lines(LineKind::Income, &file.income, &mut warnings);
    warn_lines(LineKind::Row, &file.rows, &mut warnings);
    let ghost before = warning_views(warnings@);
    let mut i: usize = 0;
    let income_word = ['i', 'n', 'c', 'o', 'm', 'e'];
    assert(income_word@ =~= seq!['i', 'n', 'c', 'o', 'm', 'e']);
    assert(file.income@.take(0) =~= Seq::<Line>::empty());
    assert(warning_views(warnings@) =~= before + outside_income(file.income@.take(0)));
    while i < file.income.len()
        invariant
            i <= file.income@.len(),
            income_word@ == seq!['i', 'n', 'c', 'o', 'm', 'e'],
            warning_views(warnings@) == before + outside_income(file.income@.take(i as int)),
        decreases file.income.len() - i,
    {
        assert(file.income@.take(i + 1).drop_last() =~= file.income@.take(i as int));
        assert(file.income@.take(i + 1).last() == file.income@[i as int]);
        let l = &file.income[i];
        let t = chars_of(top(l.category.as_str()));
        if !crate::text::chars_eq(&t, &income_word) {
            let ghost b = warning_views(warnings@);
            warnings.push(
                BudgetWarning::NotIncome { name: l.name.clone(), category: l.category.clone() },
            );
            assert(warning_views(warnings@) =~= b.push(WarningView::NotIncome(l.name@, l.category@)));
        }
        i = i + 1;
    }
    assert(file.income@.take(i as int) =~= file.income@);
    let BudgetFile { version: _, month: _, income, rows } = file;
    let budget = Budget {
        month: crate::text::string_of(&chars_of(month)),
        path: crate::text::string_of(&chars_of(path)),
        income,
        rows,
    };
    Ok((budget, warnings))
}


/// A transaction goes to the most specific line that takes it, the first
/// of equals: a line naming its merchant before one that does not, then
/// the deepest category. Income goes to income lines only, and money
/// that no row takes is unbudgeted when it is spending, ignored when it
/// only moves.
pub proof fn law_most_specific_line_wins(budget: Budget, item: Item)
    requires
        budget.rows@.len() <= usize::MAX,
        budget.income@.len() <= usize::MAX,
    ensures
        slot_of(budget, item) matches Slot::Row(i) ==> is_best_line(budget.rows@, item, i as int),
        slot_of(budget, item) matches Slot::Income(i) ==> is_best_line(budget.income@, item, i as int),
        slot_of(budget, item) == Slot::Unbudgeted <==> (top_of(item.category@) != seq![
            'i',
            'n',
            'c',
            'o',
            'm',
            'e',
        ] && no_line_takes(budget.rows@, item) && spending(item.category@)),
{
    if top_of(item.category@) == seq!['i', 'n', 'c', 'o', 'm', 'e'] {
        if !no_line_takes(budget.income@, item) {
            lemma_best_exists(budget.income@, item);
            let i = choose|i: int| is_best_line(budget.income@, item, i);
            assert((i as usize) as int == i);
        }
    } else if !no_line_takes(budget.rows@, item) {
        lemma_best_exists(budget.rows@, item);
        let i = choose|i: int| is_best_line(budget.rows@, item, i);
        assert((i as usize) as int == i);
    }
}

/// Each transaction is counted once: it is among the members of the slot
/// it goes to and of no other.
pub proof fn law_each_transaction_counted_once(budget: Budget, items: Seq<Item>, slot: Slot, n: int, k: int)
    requires
        0 <= k < n <= items.len(),
        n <= usize::MAX,
    ensures
        members_of(budget, items, slot, n).contains(k as usize) <==> slot_of(budget, items[k]) == slot,
    decreases n,
{
    let m = members_of(budget, items, slot, n);
    let p = members_of(budget, items, slot, n - 1);
    lemma_members_below(budget, items, slot, n - 1);
    if k < n - 1 {
        law_each_transaction_counted_once(budget, items, slot, n - 1, k);
        if slot_of(budget, items[n - 1]) == slot {
            assert(m == p.push((n - 1) as usize));
            if p.contains(k as usize) {
                let j = choose|j: int| 0 <= j < p.len() && p[j] == k as usize;
                assert(m[j] == k as usize);
            }
            if m.contains(k as usize) {
                let j = choose|j: int| 0 <= j < m.len() && m[j] == k as usize;
                if j < p.len() {
                    assert(p[j] == k as usize);
                }
            }
        }
    } else {
        if slot_of(budget, items[n - 1]) == slot {
            assert(m == p.push((n - 1) as usize));
            assert(m[p.len() as int] == k as usize);
        } else if m.contains(k as usize) {
            let j = choose|j: int| 0 <= j < m.len() && m[j] == k as usize;
            assert(p[j] < n - 1);
        }
    }
}

proof fn lemma_members_below(budget: Budget, items: Seq<Item>, slot: Slot, n: int)
    requires
        0 <= n <= usize::MAX,
    ensures
        forall|j: int| 0 <= j < members_of(budget, items, slot, n).len() ==> #[trigger] members_of(budget, items, slot, n)[j] < n,
    decreases n,
{
    if n > 0 {
        lemma_members_below(budget, items, slot, n - 1);
        let p = members_of(budget, items, slot, n - 1);
        let m = members_of(budget, items, slot, n);
        assert forall|j: int| 0 <= j < m.len() implies #[trigger] m[j] < n by {
            if j < p.len() {
                assert(m[j] == p[j]);
            }
        }
    }
}

} // verus!
