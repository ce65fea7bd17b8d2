//! Marking individual transactions, or a run of them, by hand.
//!
//! A mark selects transactions by date, amount and descriptor, and then
//! sets a category, a merchant name, or tags. Tags sit on top of the
//! ordinary category rather than replacing it. A later mark's category
//! and merchant win over an earlier one's; tags accumulate.

use vstd::prelude::*;

use crate::amount::{amount_of, Amount};
use crate::statement::{date_text, key_of, string_views, Date, Transaction};
use crate::text::{
    chars_eq, chars_of, debug_quoted, debug_quoted_spec, decimal, decimal_chars, join_first,
    joined, push_chars, push_str, starts_with, str_eq, string_of, views,
};

verus! {

/// The only schema version this build reads.
pub const MARKS_VERSION: u32 = 1;

#[derive(Debug, Clone)]
pub struct Mark {
    /// Why this mark exists. Not matched on.
    pub note: Option<String>,
    /// A single booking date: shorthand for `from` and `to` the same day.
    pub date: Option<Date>,
    pub from: Option<Date>,
    pub to: Option<Date>,
    /// The exact signed amount, as it appears in the statement.
    pub amount: Option<String>,
    /// Descriptor keys, exactly, in any case. Any one of them matches.
    pub descriptor: Vec<String>,
    /// The start of the descriptor key, in any case. Any one matches.
    pub descriptor_prefix: Vec<String>,
    pub category: Option<String>,
    /// Added to whatever the tables gave, never replacing them.
    pub tags: Vec<String>,
    /// Overrides the merchant name.
    pub merchant: Option<String>,
    /// `amount`, read; filled in by `check_marks`.
    pub parsed_amount: Option<Amount>,
}

#[derive(Debug, Clone)]
pub struct MarkFile {
    pub version: u32,
    pub name: String,
    pub description: Option<String>,
    pub marks: Vec<Mark>,
    pub origin: String,
}

/// `a` is on or before `b`.
pub open spec fn date_le(a: Date, b: Date) -> bool {
    a.year < b.year || (a.year == b.year && (a.month < b.month || (a.month == b.month && a.day
        <= b.day)))
}

pub fn date_on_or_before(a: Date, b: Date) -> (r: bool)
    ensures
        r == date_le(a, b),
{
    a.year < b.year || (a.year == b.year && (a.month < b.month || (a.month == b.month && a.day
        <= b.day)))
}

/// The upper-case form of a string, as `str::to_uppercase` gives it.
pub uninterp spec fn uppercase_of(s: Seq<char>) -> Seq<char>;

/// `str::to_uppercase`: Unicode upper-casing, which can lengthen a
/// string (`ß` becomes `SS`); named here, and stated only for ASCII text,
/// where each of `a` to `z` becomes `A` to `Z` and the rest stays.
#[verifier::external_body]
pub(crate) fn to_uppercase(s: &str) -> (r: String)
    ensures
        r@ == uppercase_of(s@),
        (forall|i: int| 0 <= i < s@.len() ==> (#[trigger] s@[i] as int) < 128) ==> r@ == s@.map_values(
            |c: char|
                if 'a' <= c && c <= 'z' {
                    ((c as int) - 32) as char
                } else {
                    c
                },
        ),
{
    s.to_uppercase()
}

impl Mark {
    pub open spec fn first_day(&self) -> Option<Date> {
        if self.date is Some {
            self.date
        } else {
            self.from
        }
    }

    pub open spec fn last_day(&self) -> Option<Date> {
        if self.date is Some {
            self.date
        } else {
            self.to
        }
    }

    /// Whether the descriptor conditions, taken as one, let the key
    /// through: any listed descriptor equal to it or prefix starting it,
    /// ignoring case; no descriptor conditions let everything through.
    pub open spec fn descriptor_ok(&self, key: Seq<char>) -> bool {
        let k = uppercase_of(key);
        ||| (self.descriptor@.len() == 0 && self.descriptor_prefix@.len() == 0)
        ||| exists|i: int|
            0 <= i < self.descriptor@.len() && k == uppercase_of(#[trigger] self.descriptor@[i]@)
        ||| exists|i: int|
            0 <= i < self.descriptor_prefix@.len() && uppercase_of(
                #[trigger] self.descriptor_prefix@[i]@,
            ).len() <= k.len() && k.take(uppercase_of(self.descriptor_prefix@[i]@).len() as int)
                == uppercase_of(self.descriptor_prefix@[i]@)
    }

    /// The mark applies: the booking date within its days, the amount its
    /// amount, and the descriptor one it names.
    pub open spec fn selects_spec(&self, t: Transaction) -> bool {
        &&& (self.first_day() matches Some(first) ==> date_le(first, t.booked))
        &&& (self.last_day() matches Some(last) ==> date_le(t.booked, last))
        &&& (self.parsed_amount matches Some(a) ==> t.amount.0 == a.0)
        &&& self.descriptor_ok(key_of(t.descriptor@))
    }

    /// Does this mark apply to the transaction?
    pub fn selects(&self, transaction: &Transaction) -> (r: bool)
        ensures
            r == self.selects_spec(*transaction),
    {
        let first = match self.date {
            Some(d) => Some(d),
            None => self.from,
        };
        let last = match self.date {
            Some(d) => Some(d),
            None => self.to,
        };
        if let Some(f) = first {
            if !date_on_or_before(f, transaction.booked) {
                return false;
            }
        }
        if let Some(l) = last {
            if !date_on_or_before(transaction.booked, l) {
                return false;
            }
        }
        if let Some(a) = self.parsed_amount {
            if transaction.amount.0 != a.0 {
                return false;
            }
        }
        self.descriptor_matches(transaction.descriptor.key())
    }

    /// Whether the descriptor conditions let a descriptor key through.
    pub fn descriptor_matches(&self, descriptor_key: &str) -> (r: bool)
        ensures
            r == self.descriptor_ok(descriptor_key@),
    {
        if self.descriptor.len() == 0 && self.descriptor_prefix.len() == 0 {
            return true;
        }
        let key = chars_of(to_uppercase(descriptor_key).as_str());
        let mut i: usize = 0;
        while i < self.descriptor.len()
            invariant
                i <= self.descriptor@.len(),
                key@ == uppercase_of(descriptor_key@),
                forall|j: int| 0 <= j < i ==> key@ != uppercase_of(#[trigger] self.descriptor@[j]@),
            decreases self.descriptor.len() - i,
        {
            let d = chars_of(to_uppercase(self.descriptor[i].as_str()).as_str());
            if chars_eq(&key, &d) {
                return true;
            }
            i = i + 1;
        }
        let mut i: usize = 0;
        while i < self.descriptor_prefix.len()
            invariant
                i <= self.descriptor_prefix@.len(),
                key@ == uppercase_of(descriptor_key@),
                forall|j: int|
                    0 <= j < i ==> !(uppercase_of(#[trigger] self.descriptor_prefix@[j]@).len()
                        <= key@.len() && key@.take(
                        uppercase_of(self.descriptor_prefix@[j]@).len() as int,
                    ) == uppercase_of(self.descriptor_prefix@[j]@)),
            decreases self.descriptor_prefix.len() - i,
        {
            let p = chars_of(to_uppercase(self.descriptor_prefix[i].as_str()).as_str());
            if starts_with(&key, &p) {
                return true;
            }
            i = i + 1;
        }
        false
    }

    pub open spec fn has_selector_spec(&self) -> bool {
        self.date is Some || self.from is Some || self.to is Some || self.amount is Some
            || self.descriptor@.len() > 0 || self.descriptor_prefix@.len() > 0
    }

    pub open spec fn has_effect_spec(&self) -> bool {
        self.category is Some || self.tags@.len() > 0 || self.merchant is Some
    }

    /// Whether the mark selects on anything at all.
    pub fn has_selector(&self) -> (r: bool)
        ensures
            r == self.has_selector_spec(),
    {
        self.date.is_some() || self.from.is_some() || self.to.is_some() || self.amount.is_some()
            || self.descriptor.len() > 0 || self.descriptor_prefix.len() > 0
    }

    /// Whether the mark changes anything.
    pub fn has_effect(&self) -> (r: bool)
        ensures
            r == self.has_effect_spec(),
    {
        self.category.is_some() || self.tags.len() > 0 || self.merchant.is_some()
    }
}

/// Why a marks file is refused.
#[derive(Debug, Clone, PartialEq, Eq)]
pub enum MarkError {
    UnsupportedVersion { origin: String, version: u32 },
    /// The mark, counting from one, would select every transaction.
    SelectsEverything { origin: String, mark: usize },
    /// The mark would change nothing.
    DoesNothing { origin: String, mark: usize },
    /// The mark has both `date` and `from` or `to`.
    DateAndRange { origin: String, mark: usize },
    /// The mark's range ends before it starts.
    Backwards { origin: String, mark: usize, from: Date, to: Date },
    /// The mark's amount does not read.
    BadAmount { origin: String, mark: usize, amount: String },
}

pub enum MarkFault {
    UnsupportedVersion(u32),
    SelectsEverything(int),
    DoesNothing(int),
    DateAndRange(int),
    Backwards(int, Date, Date),
    BadAmount(int, Seq<char>),
}

pub open spec fn mark_fault_of(e: MarkError) -> (Seq<char>, MarkFault) {
    match e {
        MarkError::UnsupportedVersion { origin, version } => (
            origin@,
            MarkFault::UnsupportedVersion(version),
        ),
        MarkError::SelectsEverything { origin, mark } => (
            origin@,
            MarkFault::SelectsEverything(mark as int),
        ),
        MarkError::DoesNothing { origin, mark } => (origin@, MarkFault::DoesNothing(mark as int)),
        MarkError::DateAndRange { origin, mark } => (origin@, MarkFault::DateAndRange(mark as int)),
        MarkError::Backwards { origin, mark, from, to } => (
            origin@,
            MarkFault::Backwards(mark as int, from, to),
        ),
        MarkError::BadAmount { origin, mark, amount } => (
            origin@,
            MarkFault::BadAmount(mark as int, amount@),
        ),
    }
}

/// What is wrong with one mark, numbered from one, checked in this order:
/// a selector, an effect, not both a date and a range, a range that runs
/// forwards, an amount that reads.
pub open spec fn mark_fault(m: Mark, number: int) -> Option<MarkFault> {
    if !m.has_selector_spec() {
        Some(MarkFault::SelectsEverything(number))
    } else if !m.has_effect_spec() {
        Some(MarkFault::DoesNothing(number))
    } else if m.date is Some && (m.from is Some || m.to is Some) {
        Some(MarkFault::DateAndRange(number))
    } else if m.from is Some && m.to is Some && !date_le(m.from->0, m.to->0) {
        Some(MarkFault::Backwards(number, m.from->0, m.to->0))
    } else if m.amount is Some && amount_of(m.amount->0@) is None {
        Some(MarkFault::BadAmount(number, m.amount->0@))
    } else {
        None
    }
}

/// The first mark that is wrong.
pub open spec fn marks_fault(ms: Seq<Mark>) -> Option<MarkFault>
    decreases ms.len(),
{
    if ms.len() == 0 {
        None
    } else {
        match marks_fault(ms.drop_last()) {
            Some(f) => Some(f),
            None => mark_fault(ms.last(), ms.len() as int),
        }
    }
}

pub open spec fn file_fault(f: MarkFile) -> Option<MarkFault> {
    if f.version != MARKS_VERSION {
        Some(MarkFault::UnsupportedVersion(f.version))
    } else {
        marks_fault(f.marks@)
    }
}

/// Two marks that say the same.
pub open spec fn same_mark(a: Mark, b: Mark) -> bool {
    &&& a.note == b.note
    &&& a.date == b.date
    &&& a.from == b.from
    &&& a.to == b.to
    &&& a.amount == b.amount
    &&& a.descriptor@ == b.descriptor@
    &&& a.descriptor_prefix@ == b.descriptor_prefix@
    &&& a.category == b.category
    &&& a.tags@ == b.tags@
    &&& a.merchant == b.merchant
    &&& a.parsed_amount == b.parsed_amount
}

/// A checked mark: as written, with its amount read.
pub open spec fn checked_mark(m: Mark, c: Mark) -> bool {
    &&& c.note == m.note
    &&& c.date == m.date
    &&& c.from == m.from
    &&& c.to == m.to
    &&& c.amount == m.amount
    &&& c.descriptor == m.descriptor
    &&& c.descriptor_prefix == m.descriptor_prefix
    &&& c.category == m.category
    &&& c.tags == m.tags
    &&& c.merchant == m.merchant
    &&& match m.amount {
        Some(raw) => c.parsed_amount matches Some(a) && amount_of(raw@) == Some(a.0 as int),
        None => c.parsed_amount is None,
    }
}

proof fn lemma_marks_fault(ms: Seq<Mark>, j: int)
    requires
        0 <= j <= ms.len(),
        marks_fault(ms.take(j)) is Some,
    ensures
        marks_fault(ms) == marks_fault(ms.take(j)),
    decreases ms.len(),
{
    if ms.len() > j {
        assert(ms.drop_last().take(j) =~= ms.take(j));
        lemma_marks_fault(ms.drop_last(), j);
    } else {
        assert(ms.take(j) =~= ms);
    }
}

fn check_mark(m: Mark, origin: &str, number: usize) -> (r: Result<Mark, MarkError>)
    ensures
        match r {
            Ok(c) => mark_fault(m, number as int) is None && checked_mark(m, c),
            Err(e) => mark_fault(m, number as int) == Some(mark_fault_of(e).1)
                && mark_fault_of(e).0 == origin@,
        },
{
    let o = string_of(&chars_of(origin));
    if !m.has_selector() {
        return Err(MarkError::SelectsEverything { origin: o, mark: number });
    }
    if !m.has_effect() {
        return Err(MarkError::DoesNothing { origin: o, mark: number });
    }
    if m.date.is_some() && (m.from.is_some() || m.to.is_some()) {
        return Err(MarkError::DateAndRange { origin: o, mark: number });
    }
    if let (Some(f), Some(t)) = (m.from, m.to) {
        if !date_on_or_before(f, t) {
            return Err(MarkError::Backwards { origin: o, mark: number, from: f, to: t });
        }
    }
    let parsed = match &m.amount {
        Some(raw) => match Amount::parse(raw.as_str()) {
            Ok(a) => Some(a),
            Err(_) => {
                return Err(
                    MarkError::BadAmount {
                        origin: o,
                        mark: number,
                        amount: string_of(&chars_of(raw.as_str())),
                    },
                );
            },
        },
        None => None,
    };
    let Mark {
        note,
        date,
        from,
        to,
        amount,
        descriptor,
        descriptor_prefix,
        category,
        tags,
        merchant,
        parsed_amount: _,
    } = m;
    Ok(
        Mark {
            note,
            date,
            from,
            to,
            amount,
            descriptor,
            descriptor_prefix,
            category,
            tags,
            merchant,
            parsed_amount: parsed,
        },
    )
}

/// Where in a file a mark stands: the file, then the mark's number.
pub open spec fn mark_place(origin: Seq<char>, mark: usize) -> Seq<char> {
    origin + ": mark "@ + decimal(mark as nat)
}

/// The sentence that reports a refused marks file.
pub open spec fn mark_error_text(e: MarkError) -> Seq<char> {
    match e {
        MarkError::UnsupportedVersion { origin, version } => origin@ + ": marks file version "@
            + decimal(version as nat) + " is not supported (this build reads version 1)"@,
        MarkError::SelectsEverything { origin, mark } => mark_place(origin@, mark)
            + " has no date, amount or descriptor, so it would select everything"@,
        MarkError::DoesNothing { origin, mark } => mark_place(origin@, mark)
            + " sets no category, tags or merchant, so it would do nothing"@,
        MarkError::DateAndRange { origin, mark } => mark_place(origin@, mark)
            + " has both `date` and `from`/`to`; use one or the other"@,
        MarkError::Backwards { origin, mark, from, to } => mark_place(origin@, mark)
            + " has from "@ + date_text(from) + " after to "@ + date_text(to),
        MarkError::BadAmount { origin, mark, amount } => mark_place(origin@, mark)
            + ": bad amount "@ + debug_quoted_spec(amount@),
    }
}

fn push_mark_place(out: &mut Vec<char>, origin: &String, mark: usize)
    ensures
        final(out)@ == old(out)@ + mark_place(origin@, mark),
{
    push_str(out, origin.as_str());
    push_str(out, ": mark ");
    let n = decimal_chars(mark as u64);
    push_chars(out, &n);
}

impl MarkError {
    /// The error as a sentence.
    pub fn message(&self) -> (r: String)
        ensures
            r@ == mark_error_text(*self),
    {
        let mut out: Vec<char> = Vec::new();
        match self {
            MarkError::UnsupportedVersion { origin, version } => {
                push_str(&mut out, origin.as_str());
                push_str(&mut out, ": marks file version ");
                let n = decimal_chars(*version as u64);
                push_chars(&mut out, &n);
                push_str(&mut out, " is not supported (this build reads version 1)");
            },
            MarkError::SelectsEverything { origin, mark } => {
                push_mark_place(&mut out, origin, *mark);
                push_str(&mut out, " has no date, amount or descriptor, so it would select everything");
            },
            MarkError::DoesNothing { origin, mark } => {
                push_mark_place(&mut out, origin, *mark);
                push_str(&mut out, " sets no category, tags or merchant, so it would do nothing");
            },
            MarkError::DateAndRange { origin, mark } => {
                push_mark_place(&mut out, origin, *mark);
                push_str(&mut out, " has both `date` and `from`/`to`; use one or the other");
            },
            MarkError::Backwards { origin, mark, from, to } => {
                push_mark_place(&mut out, origin, *mark);
                push_str(&mut out, " has from ");
                push_str(&mut out, from.to_text().as_str());
                push_str(&mut out, " after to ");
                push_str(&mut out, to.to_text().as_str());
            },
            MarkError::BadAmount { origin, mark, amount } => {
                push_mark_place(&mut out, origin, *mark);
                push_str(&mut out, ": bad amount ");
                push_str(&mut out, debug_quoted(amount.as_str()).as_str());
            },
        }
        string_of(&out)
    }
}

/// The days part of a mark's description.
pub open spec fn days_part(first: Option<Date>, last: Option<Date>) -> Seq<Seq<char>> {
    match (first, last) {
        (Some(a), Some(b)) => if a == b {
            seq![date_text(a)]
        } else {
            seq![date_text(a) + ".."@ + date_text(b)]
        },
        (Some(a), None) => seq!["from "@ + date_text(a)],
        (None, Some(b)) => seq!["to "@ + date_text(b)],
        (None, None) => Seq::empty(),
    }
}

/// The descriptors a mark names, its prefixes marked with a star.
pub open spec fn mark_names(m: Mark) -> Seq<Seq<char>> {
    string_views(m.descriptor@) + string_views(m.descriptor_prefix@).map_values(
        |p: Seq<char>| p + seq!['*'],
    )
}

/// The names part: at most three names, then how many more.
pub open spec fn names_part(names: Seq<Seq<char>>) -> Seq<Seq<char>> {
    if names.len() == 0 {
        Seq::empty()
    } else if names.len() > 3 {
        seq![
            joined(names.take(3), ", "@) + " and "@ + decimal((names.len() - 3) as nat)
                + " more"@,
        ]
    } else {
        seq![joined(names, ", "@)]
    }
}

/// How a mark reads in a listing: its note, or else its days, names and
/// amount, joined by spaces.
pub open spec fn describe_of(m: Mark) -> Seq<char> {
    match m.note {
        Some(n) => n@,
        None => joined(
            days_part(m.first_day(), m.last_day()) + names_part(mark_names(m)) + match m.amount {
                Some(a) => seq![a@],
                None => Seq::<Seq<char>>::empty(),
            },
            " "@,
        ),
    }
}

impl Mark {
    /// How the mark reads in a listing.
    pub fn describe(&self) -> (r: String)
        ensures
            r@ == describe_of(*self),
    {
        if let Some(note) = &self.note {
            return string_of(&chars_of(note.as_str()));
        }
        let first = match self.date {
            Some(d) => Some(d),
            None => self.from,
        };
        let last = match self.date {
            Some(d) => Some(d),
            None => self.to,
        };
        let mut parts: Vec<Vec<char>> = Vec::new();
        match (first, last) {
            (Some(a), Some(b)) => {
                if a == b {
                    parts.push(chars_of(a.to_text().as_str()));
                } else {
                    let mut v = chars_of(a.to_text().as_str());
                    push_str(&mut v, "..");
                    push_str(&mut v, b.to_text().as_str());
                    parts.push(v);
                }
            },
            (Some(a), None) => {
                let mut v: Vec<char> = Vec::new();
                push_str(&mut v, "from ");
                push_str(&mut v, a.to_text().as_str());
                parts.push(v);
            },
            (None, Some(b)) => {
                let mut v: Vec<char> = Vec::new();
                push_str(&mut v, "to ");
                push_str(&mut v, b.to_text().as_str());
                parts.push(v);
            },
            (None, None) => {},
        }
        let ghost days = parts@;
        assert(views(days) =~= days_part(self.first_day(), self.last_day()));
        let names = self.names();
        if names.len() > 3 {
            let mut v = join_first(&names, 3, ", ");
            push_str(&mut v, " and ");
            let more = decimal_chars((names.len() - 3) as u64);
            push_chars(&mut v, &more);
            push_str(&mut v, " more");
            parts.push(v);
        } else if names.len() > 0 {
            let v = join_first(&names, names.len(), ", ");
            assert(views(names@).take(names@.len() as int) =~= views(names@));
            parts.push(v);
        }
        assert(views(parts@) =~= views(days) + names_part(mark_names(*self)));
        let ghost before = parts@;
        if let Some(a) = &self.amount {
            parts.push(chars_of(a.as_str()));
        }
        let ghost tail: Seq<Seq<char>> = if self.amount is Some {
            seq![self.amount->0@]
        } else {
            Seq::<Seq<char>>::empty()
        };
        assert(views(parts@) =~= views(before) + tail);
        let out = join_first(&parts, parts.len(), " ");
        assert(views(parts@).take(parts@.len() as int) =~= views(parts@));
        string_of(&out)
    }

    /// The descriptors this mark names, prefixes with a star.
    fn names(&self) -> (r: Vec<Vec<char>>)
        ensures
            views(r@) == mark_names(*self),
    {
        let mut out: Vec<Vec<char>> = Vec::new();
        let mut i: usize = 0;
        while i < self.descriptor.len()
            invariant
                i <= self.descriptor@.len(),
                views(out@) =~= string_views(self.descriptor@.take(i as int)),
            decreases self.descriptor.len() - i,
        {
            let ghost before = out@;
            out.push(chars_of(self.descriptor[i].as_str()));
            assert(views(out@) =~= views(before).push(self.descriptor@[i as int]@));
            assert(self.descriptor@.take(i + 1) =~= self.descriptor@.take(i as int).push(
                self.descriptor@[i as int],
            ));
            assert(string_views(self.descriptor@.take(i + 1)) =~= string_views(
                self.descriptor@.take(i as int),
            ).push(self.descriptor@[i as int]@));
            i = i + 1;
        }
        assert(self.descriptor@.take(i as int) =~= self.descriptor@);
        let ghost first = out@;
        let ghost prefixes = string_views(self.descriptor_prefix@).map_values(
            |p: Seq<char>| p + seq!['*'],
        );
        let mut j: usize = 0;
        while j < self.descriptor_prefix.len()
            invariant
                j <= self.descriptor_prefix@.len(),
                views(first) == string_views(self.descriptor@),
                prefixes == string_views(self.descriptor_prefix@).map_values(
                    |p: Seq<char>| p + seq!['*'],
                ),
                views(out@) =~= views(first) + prefixes.take(j as int),
            decreases self.descriptor_prefix.len() - j,
        {
            let mut v = chars_of(self.descriptor_prefix[j].as_str());
            v.push('*');
            assert(v@ =~= self.descriptor_prefix@[j as int]@ + seq!['*']);
            assert(string_views(self.descriptor_prefix@)[j as int] == self.descriptor_prefix@[j as int]@);
            assert(prefixes[j as int] == self.descriptor_prefix@[j as int]@ + seq!['*']);
            let ghost before = out@;
            out.push(v);
            assert(views(out@) =~= views(before).push(prefixes[j as int]));
            assert(prefixes.take(j + 1) =~= prefixes.take(j as int).push(prefixes[j as int]));
            j = j + 1;
        }
        assert(prefixes.take(j as int) =~= prefixes);
        out
    }
}

/// Checks a marks file that parsed, reads its amounts, and records where
/// it came from.
pub fn check_marks(file: MarkFile, origin: &str) -> (r: Result<MarkFile, MarkError>)
    ensures
        match r {
            Ok(f) => file_fault(file) is None && f.origin@ == origin@ && f.version == file.version
                && f.name == file.name && f.description == file.description && f.marks@.len()
                == file.marks@.len() && forall|i: int|
                0 <= i < f.marks@.len() ==> checked_mark(file.marks@[i], #[trigger] f.marks@[i]),
            Err(e) => file_fault(file) == Some(mark_fault_of(e).1) && mark_fault_of(e).0
                == origin@,
        },
{
    if file.version != MARKS_VERSION {
        return Err(
            MarkError::UnsupportedVersion {
                origin: string_of(&chars_of(origin)),
                version: file.version,
            },
        );
    }
    let ghost all = file.marks@;
    let ghost whole = file_fault(file);
    assert(whole == marks_fault(all));
    let MarkFile { version, name, description, marks, origin: _ } = file;
    let mut checked: Vec<Mark> = Vec::new();
    let mut rest = marks;
    let mut i: usize = 0;
    let n = rest.len();
    while i < n
        invariant
            i <= n,
            n == all.len(),
            version == MARKS_VERSION,
            whole == marks_fault(all),
            whole == file_fault(file),
            all == file.marks@,
            rest@ == all.skip(i as int),
            checked@.len() == i,
            marks_fault(all.take(i as int)) is None,
            forall|j: int| 0 <= j < i ==> checked_mark(all[j], #[trigger] checked@[j]),
        decreases n - i,
    {
        assert(all.take(i + 1).drop_last() =~= all.take(i as int));
        assert(all.take(i + 1).last() == all[i as int]);
        let m = rest.remove(0);
        assert(m == all[i as int]);
        assert(rest@ =~= all.skip(i + 1));
        match check_mark(m, origin, i + 1) {
            Ok(c) => {
                checked.push(c);
            },
            Err(e) => {
                proof {
                    assert(marks_fault(all.take(i + 1)) == mark_fault(all[i as int], i + 1));
                    lemma_marks_fault(all, i + 1);
                    assert(marks_fault(all) == Some(mark_fault_of(e).1));
                    assert(whole == Some(mark_fault_of(e).1));
                }
                return Err(e);
            },
        }
        i = i + 1;
    }
    assert(all.take(i as int) =~= all);
    Ok(
        MarkFile {
            version,
            name,
            description,
            marks: checked,
            origin: string_of(&chars_of(origin)),
        },
    )
}

/// What the marks did to one transaction.
#[derive(Debug, Clone, Default)]
pub struct Marked {
    pub category: Option<String>,
    pub merchant: Option<String>,
    pub tags: Vec<String>,
    /// Positions in the flattened mark list, for listings.
    pub applied: Vec<usize>,
}

/// Every mark from every file, in the order they were loaded.
pub struct Marks {
    pub marks: Vec<Mark>,
    pub origins: Vec<String>,
}

/// The marks of each file, one after the other, each with its file's
/// origin.
pub open spec fn flat_marks(files: Seq<MarkFile>) -> Seq<(Mark, Seq<char>)>
    decreases files.len(),
{
    if files.len() == 0 {
        Seq::empty()
    } else {
        flat_marks(files.drop_last()) + files.last().marks@.map_values(
            |m: Mark| (m, files.last().origin@),
        )
    }
}

/// The tags, each once, in the order first met.
pub open spec fn add_tags(tags: Seq<Seq<char>>, more: Seq<Seq<char>>) -> Seq<Seq<char>>
    decreases more.len(),
{
    if more.len() == 0 {
        tags
    } else {
        let before = add_tags(tags, more.drop_last());
        if before.contains(more.last()) {
            before
        } else {
            before.push(more.last())
        }
    }
}

pub struct MarkedView {
    pub category: Option<Seq<char>>,
    pub merchant: Option<Seq<char>>,
    pub tags: Seq<Seq<char>>,
    pub applied: Seq<usize>,
}

impl View for Marked {
    type V = MarkedView;

    open spec fn view(&self) -> MarkedView {
        MarkedView {
            category: crate::statement::opt_view(self.category),
            merchant: crate::statement::opt_view(self.merchant),
            tags: string_views(self.tags@),
            applied: self.applied@,
        }
    }
}

/// The marks, in order, applied to a transaction: each one that selects
/// it sets the category and merchant it names and adds its tags.
pub open spec fn marked_by(marks: Seq<Mark>, t: Transaction) -> MarkedView
    decreases marks.len(),
{
    if marks.len() == 0 {
        MarkedView {
            category: None,
            merchant: None,
            tags: Seq::empty(),
            applied: Seq::empty(),
        }
    } else {
        let r = marked_by(marks.drop_last(), t);
        let m = marks.last();
        if !m.selects_spec(t) {
            r
        } else {
            MarkedView {
                category: match m.category {
                    Some(c) => Some(c@),
                    None => r.category,
                },
                merchant: match m.merchant {
                    Some(c) => Some(c@),
                    None => r.merchant,
                },
                tags: add_tags(r.tags, string_views(m.tags@)),
                applied: r.applied.push((marks.len() - 1) as usize),
            }
        }
    }
}

impl Marks {
    pub fn build(files: &Vec<MarkFile>) -> (r: Marks)
        ensures
            r.marks@.len() == flat_marks(files@).len(),
            r.origins@.len() == r.marks@.len(),
            forall|i: int|
                0 <= i < r.marks@.len() ==> same_mark(#[trigger] r.marks@[i], flat_marks(files@)[i].0),
            forall|i: int|
                0 <= i < r.origins@.len() ==> (#[trigger] r.origins@[i])@ == flat_marks(files@)[i].1,
    {
        let mut marks: Vec<Mark> = Vec::new();
        let mut origins: Vec<String> = Vec::new();
        let mut f: usize = 0;
        assert(files@.take(0) =~= Seq::<MarkFile>::empty());
        while f < files.len()
            invariant
                f <= files@.len(),
                marks@.len() == flat_marks(files@.take(f as int)).len(),
                origins@.len() == marks@.len(),
                forall|i: int|
                    0 <= i < marks@.len() ==> same_mark(#[trigger] marks@[i], flat_marks(
                        files@.take(f as int),
                    )[i].0),
                forall|i: int|
                    0 <= i < origins@.len() ==> (#[trigger] origins@[i])@ == flat_marks(
                        files@.take(f as int),
                    )[i].1,
            decreases files.len() - f,
        {
            let file = &files[f];
            let ghost done = flat_marks(files@.take(f as int));
            let ghost next = files@.take(f + 1);
            assert(next.drop_last() =~= files@.take(f as int));
            assert(next.last() == *file);
            let ghost more = file.marks@.map_values(|m: Mark| (m, file.origin@));
            assert(flat_marks(next) == done + more);
            let mut k: usize = 0;
            while k < file.marks.len()
                invariant
                    k <= file.marks@.len(),
                    more == file.marks@.map_values(|m: Mark| (m, file.origin@)),
                    marks@.len() == done.len() + k,
                    origins@.len() == marks@.len(),
                    forall|i: int|
                        0 <= i < marks@.len() ==> same_mark(#[trigger] marks@[i], (done + more)[i].0),
                    forall|i: int|
                        0 <= i < origins@.len() ==> (#[trigger] origins@[i])@ == (done + more)[i].1,
                decreases file.marks.len() - k,
            {
                marks.push(copy_mark(&file.marks[k]));
                origins.push(file.origin.clone());
                k = k + 1;
            }
            f = f + 1;
        }
        assert(files@.take(f as int) =~= files@);
        assert(flat_marks(files@.take(f as int)) == flat_marks(files@));
        Marks { marks, origins }
    }

    pub fn is_empty(&self) -> (r: bool)
        ensures
            r == (self.marks@.len() == 0),
    {
        self.marks.len() == 0
    }

    pub fn len(&self) -> (r: usize)
        ensures
            r == self.marks@.len(),
    {
        self.marks.len()
    }

    /// The mark at a position, and the file it came from.
    pub fn get(&self, index: usize) -> (r: (&Mark, &str))
        requires
            index < self.marks@.len(),
            self.origins@.len() == self.marks@.len(),
        ensures
            *r.0 == self.marks@[index as int],
            r.1@ == self.origins@[index as int]@,
    {
        (&self.marks[index], self.origins[index].as_str())
    }

    /// What the marks do to a transaction.
    pub fn apply(&self, transaction: &Transaction) -> (r: Marked)
        ensures
            r@ == marked_by(self.marks@, *transaction),
    {
        let mut result = Marked {
            category: None,
            merchant: None,
            tags: Vec::new(),
            applied: Vec::new(),
        };
        let ghost ms = self.marks@;
        let mut i: usize = 0;
        assert(ms.take(0) =~= Seq::<Mark>::empty());
        assert(result@ == marked_by(ms.take(0), *transaction)) by {
            assert(result@.tags =~= Seq::<Seq<char>>::empty());
            assert(result@.applied =~= Seq::<usize>::empty());
        }
        while i < self.marks.len()
            invariant
                i <= self.marks@.len(),
                ms == self.marks@,
                result@ == marked_by(ms.take(i as int), *transaction),
            decreases self.marks.len() - i,
        {
            assert(ms.take(i + 1).drop_last() =~= ms.take(i as int));
            assert(ms.take(i + 1).last() == ms[i as int]);
            let mark = &self.marks[i];
            if mark.selects(transaction) {
                let ghost before = result@;
                result.applied.push(i);
                if let Some(category) = &mark.category {
                    result.category = Some(category.clone());
                }
                if let Some(merchant) = &mark.merchant {
                    result.merchant = Some(merchant.clone());
                }
                let ghost cat = result.category;
                let ghost mer = result.merchant;
                let ghost app = result.applied@;
                let mut k: usize = 0;
                let ghost start_tags = before.tags;
                let ghost more = string_views(mark.tags@);
                assert(more.take(0) =~= Seq::<Seq<char>>::empty());
                while k < mark.tags.len()
                    invariant
                        k <= mark.tags@.len(),
                        more == string_views(mark.tags@),
                        result.category == cat,
                        result.merchant == mer,
                        result.applied@ == app,
                        string_views(result.tags@) == add_tags(start_tags, more.take(k as int)),
                    decreases mark.tags.len() - k,
                {
                    assert(more.take(k + 1).drop_last() =~= more.take(k as int));
                    assert(more.take(k + 1).last() == mark.tags@[k as int]@);
                    let tag = &mark.tags[k];
                    let mut present = false;
                    let mut j: usize = 0;
                    let ghost cur = string_views(result.tags@);
                    while j < result.tags.len()
                        invariant
                            j <= result.tags@.len(),
                            cur == string_views(result.tags@),
                            present == exists|x: int| 0 <= x < j && cur[x] == tag@,
                        decreases result.tags.len() - j,
                    {
                        assert(cur[j as int] == result.tags@[j as int]@);
                        if str_eq(result.tags[j].as_str(), tag.as_str()) {
                            present = true;
                        }
                        j = j + 1;
                    }
                    assert(present == cur.contains(tag@));
                    if !present {
                        result.tags.push(tag.clone());
                        assert(string_views(result.tags@) =~= cur.push(tag@));
                    }
                    k = k + 1;
                }
                assert(more.take(k as int) =~= more);
            }
            i = i + 1;
        }
        assert(ms.take(i as int) =~= ms);
        result
    }
}

fn copy_mark(m: &Mark) -> (r: Mark)
    ensures
        same_mark(r, *m),
{
    Mark {
        note: copy_opt(&m.note),
        date: m.date,
        from: m.from,
        to: m.to,
        amount: copy_opt(&m.amount),
        descriptor: copy_all(&m.descriptor),
        descriptor_prefix: copy_all(&m.descriptor_prefix),
        category: copy_opt(&m.category),
        tags: copy_all(&m.tags),
        merchant: copy_opt(&m.merchant),
        parsed_amount: m.parsed_amount,
    }
}

fn copy_opt(v: &Option<String>) -> (r: Option<String>)
    ensures
        r == *v,
{
    match v {
        Some(s) => Some(s.clone()),
        None => None,
    }
}

fn copy_all(v: &Vec<String>) -> (r: Vec<String>)
    ensures
        r@ == v@,
{
    let mut out: Vec<String> = Vec::new();
    let mut i: usize = 0;
    while i < v.len()
        invariant
            i <= v@.len(),
            out@ == v@.take(i as int),
        decreases v.len() - i,
    {
        out.push(v[i].clone());
        i = i + 1;
        assert(out@ =~= v@.take(i as int));
    }
    assert(v@.take(i as int) =~= v@);
    out
}


proof fn lemma_add_tags(tags: Seq<Seq<char>>, more: Seq<Seq<char>>)
    ensures
        forall|x: Seq<char>| tags.contains(x) ==> #[trigger] add_tags(tags, more).contains(x),
        forall|k: int| 0 <= k < more.len() ==> add_tags(tags, more).contains(#[trigger] more[k]),
    decreases more.len(),
{
    if more.len() > 0 {
        lemma_add_tags(tags, more.drop_last());
        let before = add_tags(tags, more.drop_last());
        let after = add_tags(tags, more);
        assert forall|x: Seq<char>| before.contains(x) implies after.contains(x) by {
            if !before.contains(more.last()) {
                let i = choose|i: int| 0 <= i < before.len() && before[i] == x;
                assert(after[i] == x);
            }
        }
        assert forall|k: int| 0 <= k < more.len() implies after.contains(#[trigger] more[k]) by {
            if k < more.len() - 1 {
                assert(more.drop_last()[k] == more[k]);
                assert(before.contains(more[k]));
            } else if !before.contains(more.last()) {
                assert(after[before.len() as int] == more.last());
            }
        }
    }
}

/// A transaction's category is the one set by the last mark that selects
/// it and sets one, and none when no such mark does; the tags of every
/// mark that selects it are all kept.
pub proof fn law_later_mark_wins_category_tags_accumulate(ms: Seq<Mark>, t: Transaction)
    ensures
        marked_by(ms, t).category matches Some(c) ==> exists|i: int|
            #![trigger ms[i]]
            {
                &&& 0 <= i < ms.len()
                &&& ms[i].selects_spec(t)
                &&& ms[i].category matches Some(x) && x@ == c
                &&& forall|j: int| i < j < ms.len() && ms[j].selects_spec(t) ==> (#[trigger] ms[j]).category is None
            },
        marked_by(ms, t).category is None ==> forall|i: int|
            0 <= i < ms.len() && (#[trigger] ms[i]).selects_spec(t) ==> ms[i].category is None,
        forall|i: int, k: int|
            #![trigger ms[i].tags@[k]]
            0 <= i < ms.len() && ms[i].selects_spec(t) && 0 <= k < ms[i].tags@.len()
                ==> marked_by(ms, t).tags.contains(ms[i].tags@[k]@),
    decreases ms.len(),
{
    if ms.len() > 0 {
        let rest = ms.drop_last();
        let m = ms.last();
        let n = ms.len() - 1;
        law_later_mark_wins_category_tags_accumulate(rest, t);
        let r = marked_by(rest, t);
        assert forall|i: int| 0 <= i < n implies #[trigger] rest[i] == ms[i] by {}
        if m.selects_spec(t) {
            let more = string_views(m.tags@);
            lemma_add_tags(r.tags, more);
            assert forall|i: int, k: int|
                #![trigger ms[i].tags@[k]]
                0 <= i < ms.len() && ms[i].selects_spec(t) && 0 <= k < ms[i].tags@.len()
                    implies marked_by(ms, t).tags.contains(ms[i].tags@[k]@) by {
                if i < n {
                    assert(rest[i] == ms[i]);
                    assert(r.tags.contains(ms[i].tags@[k]@));
                } else {
                    assert(more[k] == ms[i].tags@[k]@);
                }
            }
            match m.category {
                Some(c) => {
                    assert(ms[n] == m);
                },
                None => {
                    match r.category {
                        Some(c) => {
                            let i = choose|i: int|
                                #![trigger rest[i]]
                                {
                                    &&& 0 <= i < rest.len()
                                    &&& rest[i].selects_spec(t)
                                    &&& rest[i].category matches Some(x) && x@ == c
                                    &&& forall|j: int|
                                        i < j < rest.len() && rest[j].selects_spec(t) ==> (#[trigger] rest[j]).category is None
                                };
                            assert(ms[i] == rest[i]);
                            assert forall|j: int| i < j < ms.len() && ms[j].selects_spec(t) implies (
                            #[trigger] ms[j]).category is None by {
                                if j < n {
                                    assert(rest[j] == ms[j]);
                                }
                            }
                        },
                        None => {
                            assert forall|i: int| 0 <= i < ms.len() && (#[trigger] ms[i]).selects_spec(t) implies ms[i].category is None by {
                                if i < n {
                                    assert(rest[i] == ms[i]);
                                }
                            }
                        },
                    }
                },
            }
        } else {
            assert forall|i: int, k: int|
                #![trigger ms[i].tags@[k]]
                0 <= i < ms.len() && ms[i].selects_spec(t) && 0 <= k < ms[i].tags@.len()
                    implies marked_by(ms, t).tags.contains(ms[i].tags@[k]@) by {
                assert(i < n);
                assert(rest[i] == ms[i]);
            }
            match r.category {
                Some(c) => {
                    let i = choose|i: int|
                        #![trigger rest[i]]
                        {
                            &&& 0 <= i < rest.len()
                            &&& rest[i].selects_spec(t)
                            &&& rest[i].category matches Some(x) && x@ == c
                            &&& forall|j: int|
                                i < j < rest.len() && rest[j].selects_spec(t) ==> (#[trigger] rest[j]).category is None
                        };
                    assert(ms[i] == rest[i]);
                    assert forall|j: int| i < j < ms.len() && ms[j].selects_spec(t) implies (
                    #[trigger] ms[j]).category is None by {
                        if j < n {
                            assert(rest[j] == ms[j]);
                        }
                    }
                },
                None => {
                    assert forall|i: int| 0 <= i < ms.len() && (#[trigger] ms[i]).selects_spec(t) implies ms[i].category is None by {
                        if i < n {
                            assert(rest[i] == ms[i]);
                        }
                    }
                },
            }
        }
    }
}

} // verus!
