//! Reading a bank statement export into transactions, and pulling the
//! merchant descriptor out of the one free-text field banks give us.

use vstd::prelude::*;

use chrono::Datelike;

use crate::amount::{amount_of, Amount};
use crate::text::{
    all_ascii_digits, all_digits, blank, chars_eq, chars_of, drop_blank, is_blank, is_whitespace,
    is_ws, lines, lines_of, non_blank, slice_vec, split_at_char, split_chars, string_of, trim,
    trim_chars, trim_end, trim_end_index, views, decimal, decimal_chars, push_chars,
};

verus! {

/// A calendar day.
#[derive(Debug, Clone, Copy, PartialEq, Eq, Structural, PartialOrd, Ord, Hash)]
pub struct Date {
    pub year: i32,
    pub month: u32,
    pub day: u32,
}

pub open spec fn date_of(parts: (i32, u32, u32)) -> Date {
    Date { year: parts.0, month: parts.1, day: parts.2 }
}

/// The calendar day `chrono` reads from `text` in the given `strftime`
/// format, as year, month and day.
pub uninterp spec fn parsed_date(text: Seq<char>, format: Seq<char>) -> Option<(i32, u32, u32)>;

/// `chrono::NaiveDate::parse_from_str`. Its reading of a format is long to
/// state; the contract names the outcome `parsed_date` and says only that
/// the day handed back is the one named.
#[verifier::external_body]
pub(crate) fn parse_date(text: &str, format: &str) -> (r: Option<Date>)
    ensures
        match r {
            Some(d) => parsed_date(text@, format@) == Some((d.year, d.month, d.day)),
            None => parsed_date(text@, format@) is None,
        },
{
    match chrono::NaiveDate::parse_from_str(text, format) {
        Ok(d) => Some(Date { year: d.year(), month: d.month(), day: d.day() }),
        Err(_) => None,
    }
}

/// `n` in decimal, with zeros in front up to `width` digits.
pub open spec fn zero_padded(n: nat, width: nat) -> Seq<char> {
    let d = decimal(n);
    if d.len() >= width {
        d
    } else {
        Seq::new((width - d.len()) as nat, |_i: int| '0') + d
    }
}

/// A year as a day's text writes it: four digits from year 0 to 9999,
/// otherwise signed.
pub open spec fn year_text(y: int) -> Seq<char> {
    if 0 <= y <= 9999 {
        zero_padded(y as nat, 4)
    } else if y > 9999 {
        seq!['+'] + zero_padded(y as nat, 4)
    } else {
        seq!['-'] + zero_padded((-y) as nat, 4)
    }
}

/// How a day is written: `YYYY-MM-DD`.
pub open spec fn date_text(d: Date) -> Seq<char> {
    year_text(d.year as int) + seq!['-'] + zero_padded(d.month as nat, 2) + seq!['-']
        + zero_padded(d.day as nat, 2)
}

/// `n` in decimal, zero-padded to `width` digits.
pub fn zero_padded_chars(n: u64, width: usize) -> (r: Vec<char>)
    ensures
        r@ == zero_padded(n as nat, width as nat),
{
    let d = decimal_chars(n);
    if d.len() >= width {
        return d;
    }
    let k = width - d.len();
    let mut v: Vec<char> = Vec::new();
    let mut i: usize = 0;
    while i < k
        invariant
            i <= k,
            v@ =~= Seq::new(i as nat, |_i: int| '0'),
        decreases k - i,
    {
        v.push('0');
        i = i + 1;
    }
    push_chars(&mut v, &d);
    v
}

impl Date {
    /// The day written out, `YYYY-MM-DD`.
    pub fn to_text(&self) -> (r: String)
        ensures
            r@ == date_text(*self),
    {
        let mut v: Vec<char> = Vec::new();
        if 0 <= self.year && self.year <= 9999 {
            v = zero_padded_chars(self.year as u64, 4);
        } else if self.year > 9999 {
            v.push('+');
            let y = zero_padded_chars(self.year as u64, 4);
            push_chars(&mut v, &y);
        } else {
            v.push('-');
            let wide: i64 = self.year as i64;
            let y = zero_padded_chars((-wide) as u64, 4);
            push_chars(&mut v, &y);
        }
        v.push('-');
        let m = zero_padded_chars(self.month as u64, 2);
        push_chars(&mut v, &m);
        v.push('-');
        let d = zero_padded_chars(self.day as u64, 2);
        push_chars(&mut v, &d);
        string_of(&v)
    }
}

/// What the free-text field turned out to be.
#[derive(Debug, Clone, PartialEq, Eq)]
pub enum Descriptor {
    /// A card purchase: a truncated merchant name plus the date of the
    /// purchase itself, which is earlier than the posting date.
    Card { merchant: String, purchased: Option<Date> },
    /// A Swish payment, identified only by the counterparty's number.
    Swish { number: String },
    /// Everything else: bankgiro and autogiro creditor names, transfers
    /// between own accounts, interest, salary.
    Plain { text: String },
}

pub enum DescriptorView {
    Card { merchant: Seq<char>, purchased: Option<Date> },
    Swish { number: Seq<char> },
    Plain { text: Seq<char> },
}

impl View for Descriptor {
    type V = DescriptorView;

    open spec fn view(&self) -> DescriptorView {
        match self {
            Descriptor::Card { merchant, purchased } => DescriptorView::Card {
                merchant: merchant@,
                purchased: *purchased,
            },
            Descriptor::Swish { number } => DescriptorView::Swish { number: number@ },
            Descriptor::Plain { text } => DescriptorView::Plain { text: text@ },
        }
    }
}

pub open spec fn key_of(d: DescriptorView) -> Seq<char> {
    match d {
        DescriptorView::Card { merchant, .. } => merchant,
        DescriptorView::Swish { number } => number,
        DescriptorView::Plain { text } => text,
    }
}

impl Descriptor {
    /// The string to look a merchant up by.
    pub fn key(&self) -> (r: &str)
        ensures
            r@ == key_of(self@),
    {
        match self {
            Descriptor::Card { merchant, .. } => merchant.as_str(),
            Descriptor::Swish { number } => number.as_str(),
            Descriptor::Plain { text } => text.as_str(),
        }
    }

    pub fn kind(&self) -> (r: &'static str)
        ensures
            r@ == match self@ {
                DescriptorView::Card { .. } => "card"@,
                DescriptorView::Swish { .. } => "swish"@,
                DescriptorView::Plain { .. } => "plain"@,
            },
    {
        match self {
            Descriptor::Card { .. } => "card",
            Descriptor::Swish { .. } => "swish",
            Descriptor::Plain { .. } => "plain",
        }
    }
}

/// One posted transaction.
#[derive(Debug, Clone)]
pub struct Transaction {
    /// The day the transaction hit the account.
    pub booked: Date,
    /// The day it counts from for interest. Usually equal to `booked`.
    pub value_date: Date,
    /// The bank's posting-batch identifier. Shared by every transaction
    /// posted in the same run, so it is not a transaction id.
    pub batch: String,
    /// The `Text` field exactly as exported.
    pub text: String,
    pub amount: Amount,
    /// Account balance after the transaction, when the export carries one.
    pub balance: Option<Amount>,
    pub descriptor: Descriptor,
    /// The bank's own identifier for this one transaction, when the export
    /// carries one.
    pub reference: Option<String>,
}

pub struct TransactionView {
    pub booked: Date,
    pub value_date: Date,
    pub batch: Seq<char>,
    pub text: Seq<char>,
    pub amount: Amount,
    pub balance: Option<Amount>,
    pub descriptor: DescriptorView,
    pub reference: Option<Seq<char>>,
}

pub open spec fn opt_view(s: Option<String>) -> Option<Seq<char>> {
    match s {
        Some(x) => Some(x@),
        None => None,
    }
}

impl View for Transaction {
    type V = TransactionView;

    open spec fn view(&self) -> TransactionView {
        TransactionView {
            booked: self.booked,
            value_date: self.value_date,
            batch: self.batch@,
            text: self.text@,
            amount: self.amount,
            balance: self.balance,
            descriptor: self.descriptor@,
            reference: opt_view(self.reference),
        }
    }
}

pub open spec fn tx_views(ts: Seq<Transaction>) -> Seq<TransactionView> {
    ts.map_values(|t: Transaction| t@)
}

// ---- descriptors ------------------------------------------------------

/// The purchase date of a card descriptor: twelve characters of merchant,
/// a slash, and `YY-MM-DD`.
pub open spec fn card_date(text: Seq<char>) -> Option<(i32, u32, u32)> {
    if text.len() == 21 && text[12] == '/' {
        parsed_date(text.skip(13), "%y-%m-%d"@)
    } else {
        None
    }
}

/// Eight digits or more, and nothing else.
pub open spec fn counterparty_number(text: Seq<char>) -> bool {
    text.len() >= 8 && all_digits(text)
}

/// How a statement `Text` field reads: a card purchase by its shape, a
/// Swish counterparty when it is all digits, and plain text otherwise.
pub open spec fn descriptor_of(text: Seq<char>) -> DescriptorView {
    match card_date(text) {
        Some(d) => DescriptorView::Card {
            merchant: trim(text.take(12)),
            purchased: Some(date_of(d)),
        },
        None => if counterparty_number(trim(text)) {
            DescriptorView::Swish { number: trim(text) }
        } else {
            DescriptorView::Plain { text: trim(text) }
        },
    }
}

/// Eight digits or more, and nothing else: a Swish number, or a bank
/// account in the form the counterparty field uses.
pub fn is_counterparty_number(text: &[char]) -> (r: bool)
    ensures
        r == counterparty_number(text@),
{
    text.len() >= 8 && all_ascii_digits(text)
}

fn parse_card_descriptor(chars: &Vec<char>) -> (r: Option<Descriptor>)
    ensures
        match r {
            Some(d) => card_date(chars@) is Some && d@ == descriptor_of(chars@),
            None => card_date(chars@) is None,
        },
{
    // Counted in characters: a truncated name can end on a character that
    // takes two bytes.
    if chars.len() != 21 || chars[12] != '/' {
        return None;
    }
    let merchant = slice_vec(chars, 0, 12);
    let date_chars = slice_vec(chars, 13, 21);
    let date = string_of(&date_chars);
    assert(date_chars@ =~= chars@.skip(13));
    assert(merchant@ =~= chars@.take(12));
    match parse_date(date.as_str(), "%y-%m-%d") {
        Some(d) => {
            let name = string_of(&trim_chars(&merchant));
            Some(Descriptor::Card { merchant: name, purchased: Some(d) })
        },
        None => None,
    }
}

/// Splits a statement `Text` field into its parts.
///
/// SEB writes card purchases as a merchant name padded to exactly twelve
/// characters, a slash, and the purchase date as `YY-MM-DD`. Pure digits
/// are a Swish counterparty.
pub fn parse_descriptor(text: &str) -> (r: Descriptor)
    ensures
        r@ == descriptor_of(text@),
{
    let chars = chars_of(text);
    if let Some(d) = parse_card_descriptor(&chars) {
        return d;
    }
    let trimmed = trim_chars(&chars);
    if is_counterparty_number(&trimmed) {
        return Descriptor::Swish { number: string_of(&trimmed) };
    }
    Descriptor::Plain { text: string_of(&trimmed) }
}

// ---- formats ----------------------------------------------------------

/// The column layout of a statement export.
#[derive(Debug, Clone, Copy, PartialEq, Eq, Structural)]
pub enum Format {
    /// SEB internetbanken's CSV: semicolon separated, UTF-8 with a BOM.
    Seb,
    /// Enable Banking's account-information API: a JSON array of
    /// transactions, or the `{"transactions": [...]}` object it returns.
    EnableBanking,
}

/// A format name nobody knows.
#[derive(Debug, Clone, PartialEq, Eq)]
pub struct UnknownFormat(pub String);

/// A format name as it is compared: lower case, `_` read as `-`.
pub open spec fn name_key(name: Seq<char>) -> Seq<char> {
    name.map_values(
        |c: char|
            if 'A' <= c && c <= 'Z' {
                ((c as u32) + 32) as char
            } else if c == '_' {
                '-'
            } else {
                c
            },
    )
}

pub open spec fn format_named(name: Seq<char>) -> Option<Format> {
    let key = name_key(name);
    if key == "seb"@ {
        Some(Format::Seb)
    } else if key == "enable-banking"@ || key == "enablebanking"@ {
        Some(Format::EnableBanking)
    } else {
        None
    }
}

fn key_char(c: char) -> (r: char)
    ensures
        r == if 'A' <= c && c <= 'Z' {
            ((c as u32) + 32) as char
        } else if c == '_' {
            '-'
        } else {
            c
        },
{
    if 'A' <= c && c <= 'Z' {
        let code = (c as u32) + 32;
        assert(0x61 <= code <= 0x7a);
        char_from_ascii(code)
    } else if c == '_' {
        '-'
    } else {
        c
    }
}

/// The character with an ASCII code.
pub fn char_from_ascii(code: u32) -> (c: char)
    requires
        code < 128,
    ensures
        c == code as char,
{
    let b = code as u8;
    b as char
}

impl Format {
    /// The format a name asks for: `seb`, or `enable-banking` (also
    /// `enablebanking`), in any case and with `_` for `-`.
    pub fn from_name(name: &str) -> (r: Result<Format, UnknownFormat>)
        ensures
            match r {
                Ok(f) => format_named(name@) == Some(f),
                Err(e) => format_named(name@) is None && e.0@ == name@,
            },
    {
        let cs = chars_of(name);
        let mut key: Vec<char> = Vec::new();
        let mut i: usize = 0;
        while i < cs.len()
            invariant
                i <= cs@.len(),
                cs@ == name@,
                key@ == name_key(cs@.take(i as int)),
            decreases cs.len() - i,
        {
            key.push(key_char(cs[i]));
            i = i + 1;
            assert(key@ =~= name_key(cs@.take(i as int)));
        }
        assert(cs@.take(i as int) =~= cs@);
        let seb = chars_of("seb");
        let eb = chars_of("enable-banking");
        let eb2 = chars_of("enablebanking");
        if chars_eq(&key, &seb) {
            Ok(Format::Seb)
        } else if chars_eq(&key, &eb) || chars_eq(&key, &eb2) {
            Ok(Format::EnableBanking)
        } else {
            Err(UnknownFormat(string_of(&cs)))
        }
    }
}

/// What is left once byte-order marks and whitespace at the start are
/// skipped.
pub open spec fn skip_bom_ws(s: Seq<char>) -> Seq<char>
    decreases s.len(),
{
    if s.len() > 0 && (s[0] == '\u{feff}' || is_ws(s[0])) {
        skip_bom_ws(s.drop_first())
    } else {
        s
    }
}

pub open spec fn sniffed(contents: Seq<char>) -> Option<Format> {
    let start = skip_bom_ws(contents);
    if start.len() > 0 && (start[0] == '[' || start[0] == '{') {
        Some(Format::EnableBanking)
    } else {
        None
    }
}

/// The format a file announces by its first non-blank character, or `None`
/// when it does not announce one: JSON opens with a bracket, and a CSV
/// export never does.
pub fn sniff(contents: &str) -> (r: Option<Format>)
    ensures
        r == sniffed(contents@),
{
    let cs = chars_of(contents);
    let mut i: usize = 0;
    assert(cs@.skip(0) =~= cs@);
    while i < cs.len() && (cs[i] == '\u{feff}' || is_whitespace(cs[i]))
        invariant
            i <= cs@.len(),
            skip_bom_ws(cs@) == skip_bom_ws(cs@.skip(i as int)),
        decreases cs.len() - i,
    {
        assert(cs@.skip(i as int).drop_first() =~= cs@.skip(i + 1));
        i = i + 1;
    }
    if i < cs.len() && (cs[i] == '[' || cs[i] == '{') {
        Some(Format::EnableBanking)
    } else {
        None
    }
}

// ---- errors -----------------------------------------------------------

/// Why a statement could not be read.
#[derive(Debug, Clone, PartialEq, Eq)]
pub enum StatementError {
    /// Nothing but blank lines.
    Empty,
    /// The header lacks a column every SEB export has.
    MissingColumn { column: String, found: Vec<String> },
    /// A line with fewer fields than the header promised.
    ShortLine { line: usize, columns: usize },
    /// A date field that is not an ISO date.
    BadDate { line: usize, raw: String },
    /// A `Belopp` that is not an amount.
    BadAmount { line: usize },
    /// An Enable Banking transaction whose amount is not an amount.
    BadTransactionAmount { transaction: usize },
    /// An Enable Banking transaction whose direction is neither `DBIT`
    /// nor `CRDT`.
    UnknownDirection { transaction: usize, direction: String },
}

pub enum Fault {
    Empty,
    MissingColumn(Seq<char>, Seq<Seq<char>>),
    ShortLine(int, int),
    BadDate(int, Seq<char>),
    BadAmount(int),
    BadTransactionAmount(int),
    UnknownDirection(int, Seq<char>),
}

pub open spec fn string_views(v: Seq<String>) -> Seq<Seq<char>> {
    v.map_values(|s: String| s@)
}

impl View for StatementError {
    type V = Fault;

    open spec fn view(&self) -> Fault {
        match self {
            StatementError::Empty => Fault::Empty,
            StatementError::MissingColumn { column, found } => Fault::MissingColumn(
                column@,
                string_views(found@),
            ),
            StatementError::ShortLine { line, columns } => Fault::ShortLine(
                *line as int,
                *columns as int,
            ),
            StatementError::BadDate { line, raw } => Fault::BadDate(*line as int, raw@),
            StatementError::BadAmount { line } => Fault::BadAmount(*line as int),
            StatementError::BadTransactionAmount { transaction } => Fault::BadTransactionAmount(
                *transaction as int,
            ),
            StatementError::UnknownDirection { transaction, direction } => Fault::UnknownDirection(
                *transaction as int,
                direction@,
            ),
        }
    }
}

// ---- SEB --------------------------------------------------------------

/// Where each column SEB writes sits in a header.
#[derive(Debug, Clone, Copy, PartialEq, Eq, Structural)]
pub struct SebLayout {
    pub booked: usize,
    pub value_date: usize,
    pub batch: usize,
    pub text: usize,
    pub amount: usize,
    pub balance: Option<usize>,
    pub columns: usize,
}

/// The first position of `name` among `columns`, or their number.
pub open spec fn position(columns: Seq<Seq<char>>, name: Seq<char>) -> int
    decreases columns.len(),
{
    if columns.len() == 0 {
        0
    } else if columns[0] == name {
        0
    } else {
        1 + position(columns.drop_first(), name)
    }
}

proof fn lemma_position(columns: Seq<Seq<char>>, name: Seq<char>)
    ensures
        0 <= position(columns, name) <= columns.len(),
        position(columns, name) < columns.len() ==> columns[position(columns, name)] == name,
        forall|j: int| 0 <= j < position(columns, name) ==> #[trigger] columns[j] != name,
    decreases columns.len(),
{
    if columns.len() > 0 && columns[0] != name {
        lemma_position(columns.drop_first(), name);
        assert forall|j: int| 0 <= j < position(columns, name) implies #[trigger] columns[j]
            != name by {
            if j > 0 {
                assert(columns[j] == columns.drop_first()[j - 1]);
            }
        }
    }
}

proof fn lemma_position_unique(columns: Seq<Seq<char>>, name: Seq<char>, i: int)
    requires
        0 <= i <= columns.len(),
        i < columns.len() ==> columns[i] == name,
        forall|j: int| 0 <= j < i ==> #[trigger] columns[j] != name,
    ensures
        position(columns, name) == i,
{
    lemma_position(columns, name);
    let p = position(columns, name);
    if p < i {
        assert(columns[p] != name);
    } else if i < p {
        assert(columns[i] != name);
    }
}

fn find_column(columns: &Vec<Vec<char>>, name: &str) -> (r: usize)
    ensures
        r == position(views(columns@), name@),
        r <= columns@.len(),
{
    let want = chars_of(name);
    let ghost cols = views(columns@);
    let mut i: usize = 0;
    while i < columns.len()
        invariant
            i <= columns@.len(),
            cols == views(columns@),
            want@ == name@,
            forall|j: int| 0 <= j < i ==> #[trigger] cols[j] != name@,
        decreases columns.len() - i,
    {
        if chars_eq(&columns[i], &want) {
            proof {
                lemma_position_unique(cols, name@, i as int);
            }
            return i;
        }
        i = i + 1;
    }
    proof {
        lemma_position_unique(cols, name@, i as int);
    }
    i
}

/// The header's columns, each trimmed.
pub open spec fn header_columns(header: Seq<char>) -> Seq<Seq<char>> {
    split_at_char(header, ';').map_values(|c: Seq<char>| trim(c))
}

/// Where SEB's columns are, or the first one that is missing.
pub open spec fn seb_layout(columns: Seq<Seq<char>>) -> Result<SebLayout, Fault> {
    let n = columns.len();
    let booked = position(columns, "Bokföringsdatum"@);
    let value_date = position(columns, "Valutadatum"@);
    let batch = position(columns, "Verifikationsnummer"@);
    let text = position(columns, "Text"@);
    let amount = position(columns, "Belopp"@);
    let balance = position(columns, "Saldo"@);
    if booked == n {
        Err(Fault::MissingColumn("Bokföringsdatum"@, columns))
    } else if value_date == n {
        Err(Fault::MissingColumn("Valutadatum"@, columns))
    } else if batch == n {
        Err(Fault::MissingColumn("Verifikationsnummer"@, columns))
    } else if text == n {
        Err(Fault::MissingColumn("Text"@, columns))
    } else if amount == n {
        Err(Fault::MissingColumn("Belopp"@, columns))
    } else {
        Ok(
            SebLayout {
                booked: booked as usize,
                value_date: value_date as usize,
                batch: batch as usize,
                text: text as usize,
                amount: amount as usize,
                balance: if balance < n {
                    Some(balance as usize)
                } else {
                    None
                },
                columns: n as usize,
            },
        )
    }
}

/// A date field, trimmed and read as `YYYY-MM-DD`.
pub open spec fn seb_date(field: Seq<char>, number: int) -> Result<Date, Fault> {
    match parsed_date(trim(field), "%Y-%m-%d"@) {
        Some(d) => Ok(date_of(d)),
        None => Err(Fault::BadDate(number, trim(field))),
    }
}

/// One data line of an SEB export, split at `;`, as a transaction. The
/// fields are read in this order, and the first that fails decides the
/// error: `Text`, `Belopp`, `Saldo`, the two dates, and the batch.
pub open spec fn seb_row(fields: Seq<Seq<char>>, lay: SebLayout, number: int) -> Result<
    TransactionView,
    Fault,
> {
    let short = Fault::ShortLine(number, lay.columns as int);
    let n = fields.len();
    if lay.text >= n || lay.amount >= n {
        Err(short)
    } else if amount_of(trim(fields[lay.amount as int])) is None {
        Err(Fault::BadAmount(number))
    } else if lay.balance matches Some(b) && b >= n {
        Err(short)
    } else if lay.booked >= n {
        Err(short)
    } else if seb_date(fields[lay.booked as int], number) is Err {
        Err(Fault::BadDate(number, trim(fields[lay.booked as int])))
    } else if lay.value_date >= n {
        Err(short)
    } else if seb_date(fields[lay.value_date as int], number) is Err {
        Err(Fault::BadDate(number, trim(fields[lay.value_date as int])))
    } else if lay.batch >= n {
        Err(short)
    } else {
        let text = trim(fields[lay.text as int]);
        Ok(
            TransactionView {
                booked: seb_date(fields[lay.booked as int], number)->Ok_0,
                value_date: seb_date(fields[lay.value_date as int], number)->Ok_0,
                batch: trim(fields[lay.batch as int]),
                text,
                amount: Amount((amount_of(trim(fields[lay.amount as int]))->0) as i64),
                balance: match lay.balance {
                    Some(b) => match amount_of(trim(fields[b as int])) {
                        Some(v) => Some(Amount(v as i64)),
                        None => None,
                    },
                    None => None,
                },
                descriptor: descriptor_of(text),
                reference: None,
            },
        )
    }
}

/// The data lines read in order; the first failure is the answer.
pub open spec fn seb_rows(rows: Seq<Seq<char>>, lay: SebLayout) -> Result<
    Seq<TransactionView>,
    Fault,
>
    decreases rows.len(),
{
    if rows.len() == 0 {
        Ok(Seq::empty())
    } else {
        match seb_rows(rows.drop_last(), lay) {
            Err(e) => Err(e),
            Ok(ts) => match seb_row(split_at_char(rows.last(), ';'), lay, rows.len() as int + 1) {
                Err(e) => Err(e),
                Ok(t) => Ok(ts.push(t)),
            },
        }
    }
}


proof fn lemma_seb_rows_err(rows: Seq<Seq<char>>, lay: SebLayout, j: int)
    requires
        0 <= j <= rows.len(),
        seb_rows(rows.take(j), lay) is Err,
    ensures
        seb_rows(rows, lay) == seb_rows(rows.take(j), lay),
    decreases rows.len(),
{
    if rows.len() > j {
        assert(rows.drop_last().take(j) =~= rows.take(j));
        lemma_seb_rows_err(rows.drop_last(), lay, j);
    } else {
        assert(rows.take(j) =~= rows);
    }
}

proof fn lemma_eb_rows_err(rows: Seq<EbTransaction>, j: int)
    requires
        0 <= j <= rows.len(),
        eb_rows(rows.take(j)) is Err,
    ensures
        eb_rows(rows) == eb_rows(rows.take(j)),
    decreases rows.len(),
{
    if rows.len() > j {
        assert(rows.drop_last().take(j) =~= rows.take(j));
        lemma_eb_rows_err(rows.drop_last(), j);
    } else {
        assert(rows.take(j) =~= rows);
    }
}

pub open spec fn strip_bom(s: Seq<char>) -> Seq<char> {
    if s.len() > 0 && s[0] == '\u{feff}' {
        s.drop_first()
    } else {
        s
    }
}

/// What an SEB export reads as: the non-blank lines after an optional
/// byte-order mark, the first of them the header.
pub open spec fn seb_statement(contents: Seq<char>) -> Result<Seq<TransactionView>, Fault> {
    let ls = non_blank(lines_of(strip_bom(contents)));
    if ls.len() == 0 {
        Err(Fault::Empty)
    } else {
        match seb_layout(header_columns(ls[0])) {
            Err(e) => Err(e),
            Ok(lay) => seb_rows(ls.drop_first(), lay),
        }
    }
}

fn to_strings(v: &Vec<Vec<char>>) -> (r: Vec<String>)
    ensures
        string_views(r@) == views(v@),
{
    let mut out: Vec<String> = Vec::new();
    let mut i: usize = 0;
    while i < v.len()
        invariant
            i <= v@.len(),
            string_views(out@) == views(v@).take(i as int),
        decreases v.len() - i,
    {
        let s = string_of(&v[i]);
        let ghost before = string_views(out@);
        out.push(s);
        assert(string_views(out@) =~= before.push(s@));
        assert(string_views(out@) =~= views(v@).take(i + 1));
        i = i + 1;
    }
    assert(views(v@).take(i as int) =~= views(v@));
    out
}

fn columns_of(header: &Vec<char>) -> (r: Vec<Vec<char>>)
    ensures
        views(r@) == header_columns(header@),
{
    let pieces = split_chars(header, ';');
    let ghost p = split_at_char(header@, ';');
    let mut out: Vec<Vec<char>> = Vec::new();
    let mut i: usize = 0;
    while i < pieces.len()
        invariant
            i <= pieces@.len(),
            views(pieces@) == p,
            views(out@) == p.map_values(|c: Seq<char>| trim(c)).take(i as int),
        decreases pieces.len() - i,
    {
        assert(pieces@[i as int]@ == p[i as int]);
        let t = trim_chars(&pieces[i]);
        let ghost before = views(out@);
        out.push(t);
        assert(views(out@) =~= before.push(t@));
        assert(views(out@) =~= p.map_values(|c: Seq<char>| trim(c)).take(i + 1));
        i = i + 1;
    }
    assert(p.map_values(|c: Seq<char>| trim(c)).take(i as int) =~= p.map_values(
        |c: Seq<char>| trim(c),
    ));
    out
}

fn layout_of(columns: &Vec<Vec<char>>) -> (r: Result<SebLayout, StatementError>)
    ensures
        match r {
            Ok(lay) => seb_layout(views(columns@)) == Ok::<SebLayout, Fault>(lay),
            Err(e) => seb_layout(views(columns@)) == Err::<SebLayout, Fault>(e@),
        },
{
    let n = columns.len();
    let booked = find_column(columns, "Bokföringsdatum");
    let value_date = find_column(columns, "Valutadatum");
    let batch = find_column(columns, "Verifikationsnummer");
    let text = find_column(columns, "Text");
    let amount = find_column(columns, "Belopp");
    let balance = find_column(columns, "Saldo");
    let missing = if booked == n {
        Some("Bokföringsdatum")
    } else if value_date == n {
        Some("Valutadatum")
    } else if batch == n {
        Some("Verifikationsnummer")
    } else if text == n {
        Some("Text")
    } else if amount == n {
        Some("Belopp")
    } else {
        None
    };
    match missing {
        Some(name) => {
            let found = to_strings(columns);
            let column = string_of(&chars_of(name));
            Err(StatementError::MissingColumn { column, found })
        },
        None => Ok(
            SebLayout {
                booked,
                value_date,
                batch,
                text,
                amount,
                balance: if balance < n {
                    Some(balance)
                } else {
                    None
                },
                columns: n,
            },
        ),
    }
}

fn read_date(field: &Vec<char>, number: usize) -> (r: Result<Date, StatementError>)
    ensures
        match r {
            Ok(d) => seb_date(field@, number as int) == Ok::<Date, Fault>(d),
            Err(e) => seb_date(field@, number as int) == Err::<Date, Fault>(e@),
        },
{
    let raw = string_of(&trim_chars(field));
    match parse_date(raw.as_str(), "%Y-%m-%d") {
        Some(d) => Ok(d),
        None => Err(StatementError::BadDate { line: number, raw }),
    }
}

fn read_amount(field: &Vec<char>) -> (r: Option<Amount>)
    ensures
        match r {
            Some(a) => amount_of(trim(field@)) == Some(a.0 as int),
            None => amount_of(trim(field@)) is None,
        },
{
    let t = string_of(&trim_chars(field));
    match Amount::parse(t.as_str()) {
        Ok(a) => Some(a),
        Err(_) => None,
    }
}

fn seb_transaction(fields: &Vec<Vec<char>>, lay: &SebLayout, number: usize) -> (r: Result<
    Transaction,
    StatementError,
>)
    ensures
        match r {
            Ok(t) => seb_row(views(fields@), *lay, number as int) == Ok::<TransactionView, Fault>(
                t@,
            ),
            Err(e) => seb_row(views(fields@), *lay, number as int) == Err::<
                TransactionView,
                Fault,
            >(e@),
        },
{
    let n = fields.len();
    let short = StatementError::ShortLine { line: number, columns: lay.columns };
    if lay.text >= n || lay.amount >= n {
        return Err(short);
    }
    let text_chars = trim_chars(&fields[lay.text]);
    let amount = match read_amount(&fields[lay.amount]) {
        Some(a) => a,
        None => {
            return Err(StatementError::BadAmount { line: number });
        },
    };
    let balance = match lay.balance {
        Some(b) => {
            if b >= n {
                return Err(short);
            }
            read_amount(&fields[b])
        },
        None => None,
    };
    if lay.booked >= n {
        return Err(short);
    }
    let booked = match read_date(&fields[lay.booked], number) {
        Ok(d) => d,
        Err(e) => {
            return Err(e);
        },
    };
    if lay.value_date >= n {
        return Err(short);
    }
    let value_date = match read_date(&fields[lay.value_date], number) {
        Ok(d) => d,
        Err(e) => {
            return Err(e);
        },
    };
    if lay.batch >= n {
        return Err(short);
    }
    let batch = string_of(&trim_chars(&fields[lay.batch]));
    let text = string_of(&text_chars);
    let descriptor = parse_descriptor(text.as_str());
    Ok(
        Transaction {
            booked,
            value_date,
            batch,
            text,
            amount,
            balance,
            descriptor,
            reference: None,
        },
    )
}

/// Reads SEB internetbanken's CSV export. Columns are found by name in
/// the header, so a reordering or an added column is tolerated, but a
/// header without the expected names is an error rather than a guess.
pub fn parse_seb(contents: &str) -> (r: Result<Vec<Transaction>, StatementError>)
    ensures
        match r {
            Ok(ts) => seb_statement(contents@) == Ok::<Seq<TransactionView>, Fault>(
                tx_views(ts@),
            ),
            Err(e) => seb_statement(contents@) == Err::<Seq<TransactionView>, Fault>(e@),
        },
{
    let cs = chars_of(contents);
    let start: usize = if cs.len() > 0 && cs[0] == '\u{feff}' {
        1
    } else {
        0
    };
    let body = slice_vec(&cs, start, cs.len());
    assert(body@ =~= strip_bom(contents@));
    let ls = drop_blank(lines(&body));
    let ghost all = views(ls@);
    if ls.len() == 0 {
        return Err(StatementError::Empty);
    }
    let columns = columns_of(&ls[0]);
    let lay = match layout_of(&columns) {
        Ok(l) => l,
        Err(e) => {
            return Err(e);
        },
    };
    let ghost rows = all.drop_first();
    let mut out: Vec<Transaction> = Vec::new();
    let mut k: usize = 1;
    assert(rows.take(0) =~= Seq::<Seq<char>>::empty());
    assert(seb_statement(contents@) == seb_rows(rows, lay));
    assert(tx_views(out@) =~= Seq::<TransactionView>::empty());
    while k < ls.len()
        invariant
            1 <= k <= ls@.len(),
            all == views(ls@),
            rows == all.drop_first(),
            seb_statement(contents@) == seb_rows(rows, lay),
            seb_rows(rows.take(k - 1), lay) == Ok::<Seq<TransactionView>, Fault>(tx_views(out@)),
        decreases ls.len() - k,
    {
        let fields = split_chars(&ls[k], ';');
        let ghost prefix = rows.take(k as int);
        proof {
            assert(prefix.drop_last() =~= rows.take(k - 1));
            assert(prefix.last() == ls@[k as int]@);
            assert(prefix.len() + 1 == k + 1);
        }
        match seb_transaction(&fields, &lay, k + 1) {
            Ok(t) => {
                let ghost before = tx_views(out@);
                out.push(t);
                assert(tx_views(out@) =~= before.push(t@));
            },
            Err(e) => {
                proof {
                    lemma_seb_rows_err(rows, lay, k as int);
                }
                return Err(e);
            },
        }
        k = k + 1;
    }
    assert(rows.take(k - 1) =~= rows);
    Ok(out)
}

// ---- Enable Banking ---------------------------------------------------

/// The bank's classification of a transaction.
#[derive(Debug, Clone)]
pub struct EbBankTransactionCode {
    /// "Card purchase", "Instant payment", "Mortgage" and so on.
    pub description: Option<String>,
}

/// One transaction as Enable Banking describes it; only the fields this
/// tool uses.
#[derive(Debug, Clone)]
pub struct EbTransaction {
    /// Absent on a pending transaction, which is why those are skipped.
    pub booking_date: Option<Date>,
    pub value_date: Option<Date>,
    /// The day a card was actually used, when the bank fills it in.
    pub transaction_date: Option<Date>,
    /// The unsigned amount, as text.
    pub transaction_amount: String,
    /// `DBIT` for money out, `CRDT` for money in.
    pub credit_debit_indicator: Option<String>,
    /// `BOOK` once posted, `PDNG` while pending.
    pub status: Option<String>,
    pub entry_reference: Option<String>,
    pub remittance_information: Vec<String>,
    pub bank_transaction_code: Option<EbBankTransactionCode>,
    /// The balance after the transaction, as text.
    pub balance_after_transaction: Option<String>,
}

/// The parts joined with single spaces.
pub open spec fn join_spaces(parts: Seq<Seq<char>>) -> Seq<char>
    decreases parts.len(),
{
    if parts.len() == 0 {
        Seq::empty()
    } else if parts.len() == 1 {
        parts[0]
    } else {
        join_spaces(parts.drop_last()) + seq![' '] + parts.last()
    }
}

/// Index of the last whitespace character, or -1.
pub open spec fn last_ws(s: Seq<char>) -> int
    decreases s.len(),
{
    if s.len() == 0 {
        -1
    } else if is_ws(s.last()) {
        s.len() - 1
    } else {
        last_ws(s.drop_last())
    }
}

proof fn lemma_last_ws(s: Seq<char>)
    ensures
        -1 <= last_ws(s) < s.len(),
        last_ws(s) >= 0 ==> is_ws(s[last_ws(s)]),
        forall|j: int| last_ws(s) < j < s.len() ==> !is_ws(#[trigger] s[j]),
    decreases s.len(),
{
    if s.len() > 0 && !is_ws(s.last()) {
        lemma_last_ws(s.drop_last());
        assert forall|j: int| last_ws(s) < j < s.len() implies !is_ws(#[trigger] s[j]) by {
            if j < s.len() - 1 {
                assert(s[j] == s.drop_last()[j]);
            }
        }
    }
}

/// A transfer's text without the payment reference at its end: a run of
/// at least nine digits after the last whitespace, with something other
/// than whitespace before it.
pub open spec fn strip_reference(text: Seq<char>) -> Seq<char> {
    let i = last_ws(text);
    if i >= 0 && text.len() - i - 1 >= 9 && all_digits(text.skip(i + 1)) && !is_blank(
        text.take(i),
    ) {
        trim_end(text.take(i))
    } else {
        text
    }
}

/// Drops a trailing payment reference, leaving whatever came before it.
/// Nine digits is the shortest reference seen; requiring that many keeps
/// it from eating a house number off the end of a real name.
pub fn strip_payment_reference(text: &[char]) -> (r: Vec<char>)
    ensures
        r@ == strip_reference(text@),
{
    proof {
        lemma_last_ws(text@);
    }
    let mut i: usize = text.len();
    while i > 0 && !is_whitespace(text[i - 1])
        invariant
            i <= text@.len(),
            forall|j: int| i <= j < text@.len() ==> !is_ws(#[trigger] text@[j]),
            last_ws(text@) < i,
            -1 <= last_ws(text@),
            last_ws(text@) >= 0 ==> is_ws(text@[last_ws(text@)]),
        decreases i,
    {
        proof {
            if last_ws(text@) == i - 1 {
                assert(is_ws(text@[i - 1]));
            }
        }
        i = i - 1;
    }
    if i == 0 {
        assert(last_ws(text@) == -1) by {
            if last_ws(text@) >= 0 {
                assert(!is_ws(text@[last_ws(text@)]));
            }
        }
        return slice_vec(text, 0, text.len());
    }
    let ws = i - 1;
    assert(last_ws(text@) == ws) by {
        if last_ws(text@) < ws {
            assert(is_ws(text@[ws as int]));
        }
    }
    let head = slice_vec(text, 0, ws);
    let reference = slice_vec(text, i, text.len());
    assert(reference@ =~= text@.skip(i as int));
    if reference.len() >= 9 && all_ascii_digits(&reference) && !blank(&head) {
        let end = trim_end_index(&head, 0);
        assert(head@.subrange(0, head@.len() as int) =~= head@);
        slice_vec(&head, 0, end)
    } else {
        slice_vec(text, 0, text.len())
    }
}

/// How an untruncated descriptor reads: the bank says outright when it is
/// a card purchase; a credit transfer loses its payment reference; what
/// is left is a counterparty number or plain text.
pub open spec fn eb_descriptor(text: Seq<char>, kind: Option<Seq<char>>, purchased: Option<Date>) -> DescriptorView {
    let trimmed = trim(text);
    if kind == Some("Card purchase"@) {
        DescriptorView::Card { merchant: trimmed, purchased }
    } else {
        let key = if kind == Some("Credit transfer"@) {
            strip_reference(trimmed)
        } else {
            trimmed
        };
        if counterparty_number(key) {
            DescriptorView::Swish { number: key }
        } else {
            DescriptorView::Plain { text: key }
        }
    }
}

/// Classifies a descriptor that has not been truncated.
pub fn enable_banking_descriptor(text: &str, kind: Option<&str>, purchased: Option<Date>) -> (r:
    Descriptor)
    ensures
        r@ == eb_descriptor(
            text@,
            match kind {
                Some(k) => Some(k@),
                None => None,
            },
            purchased,
        ),
{
    let trimmed = trim_chars(&chars_of(text));
    let card = chars_of("Card purchase");
    let transfer = chars_of("Credit transfer");
    let (is_card, is_transfer) = match kind {
        Some(k) => {
            let kc = chars_of(k);
            (chars_eq(&kc, &card), chars_eq(&kc, &transfer))
        },
        None => (false, false),
    };
    if is_card {
        return Descriptor::Card { merchant: string_of(&trimmed), purchased };
    }
    let key = if is_transfer {
        strip_payment_reference(&trimmed)
    } else {
        trimmed
    };
    if is_counterparty_number(&key) {
        return Descriptor::Swish { number: string_of(&key) };
    }
    Descriptor::Plain { text: string_of(&key) }
}

/// A pending transaction, or one with no booking date: replaced by a
/// booked one within a day or two, so counting it would count it twice.
pub open spec fn eb_skipped(row: EbTransaction) -> bool {
    ||| (row.status matches Some(s) && s@ == "PDNG"@)
    ||| row.booking_date is None
}

pub open spec fn eb_kind(row: EbTransaction) -> Option<Seq<char>> {
    match row.bank_transaction_code {
        Some(code) => match code.description {
            Some(d) => Some(d@),
            None => None,
        },
        None => None,
    }
}

pub open spec fn eb_text(row: EbTransaction) -> Seq<char> {
    trim(join_spaces(string_views(row.remittance_information@)))
}

/// One transaction that is not skipped, numbered from one.
pub open spec fn eb_row(row: EbTransaction, number: int) -> Result<TransactionView, Fault> {
    match amount_of(row.transaction_amount@) {
        None => Err(Fault::BadTransactionAmount(number)),
        Some(magnitude) => {
            let signed = match row.credit_debit_indicator {
                Some(d) => if d@ == "DBIT"@ {
                    Some(-magnitude)
                } else if d@ == "CRDT"@ {
                    Some(magnitude)
                } else {
                    None
                },
                None => Some(magnitude),
            };
            match signed {
                None => Err(Fault::UnknownDirection(number, (row.credit_debit_indicator->0)@)),
                Some(amount) => {
                    let booked = row.booking_date->0;
                    Ok(
                        TransactionView {
                            booked,
                            value_date: match row.value_date {
                                Some(v) => v,
                                None => booked,
                            },
                            batch: Seq::empty(),
                            text: eb_text(row),
                            amount: Amount(amount as i64),
                            balance: match row.balance_after_transaction {
                                Some(b) => match amount_of(b@) {
                                    Some(v) => Some(Amount(v as i64)),
                                    None => None,
                                },
                                None => None,
                            },
                            descriptor: eb_descriptor(
                                eb_text(row),
                                eb_kind(row),
                                row.transaction_date,
                            ),
                            reference: opt_view(row.entry_reference),
                        },
                    )
                },
            }
        },
    }
}

/// The transactions read in order, skipping the pending ones; the first
/// failure is the answer.
pub open spec fn eb_rows(rows: Seq<EbTransaction>) -> Result<Seq<TransactionView>, Fault>
    decreases rows.len(),
{
    if rows.len() == 0 {
        Ok(Seq::empty())
    } else {
        match eb_rows(rows.drop_last()) {
            Err(e) => Err(e),
            Ok(ts) => if eb_skipped(rows.last()) {
                Ok(ts)
            } else {
                match eb_row(rows.last(), rows.len() as int) {
                    Err(e) => Err(e),
                    Ok(t) => Ok(ts.push(t)),
                }
            },
        }
    }
}

fn join_with_spaces(parts: &Vec<String>) -> (r: Vec<char>)
    ensures
        r@ == join_spaces(string_views(parts@)),
{
    let ghost ps = string_views(parts@);
    let mut out: Vec<char> = Vec::new();
    let mut i: usize = 0;
    while i < parts.len()
        invariant
            i <= parts@.len(),
            ps == string_views(parts@),
            out@ == join_spaces(ps.take(i as int)),
        decreases parts.len() - i,
    {
        assert(ps.take(i + 1).drop_last() =~= ps.take(i as int));
        if i > 0 {
            out.push(' ');
        }
        let ghost before = out@;
        crate::text::push_str(&mut out, parts[i].as_str());
        assert(ps.take(i + 1).last() == parts@[i as int]@);
        if i == 0 {
            assert(out@ =~= join_spaces(ps.take(1)));
        }
        i = i + 1;
    }
    assert(ps.take(i as int) =~= ps);
    out
}

fn eb_transaction(row: &EbTransaction, number: usize) -> (r: Result<Transaction, StatementError>)
    requires
        !eb_skipped(*row),
    ensures
        match r {
            Ok(t) => eb_row(*row, number as int) == Ok::<TransactionView, Fault>(t@),
            Err(e) => eb_row(*row, number as int) == Err::<TransactionView, Fault>(e@),
        },
{
    let magnitude = match Amount::parse(row.transaction_amount.as_str()) {
        Ok(a) => a,
        Err(_) => {
            return Err(StatementError::BadTransactionAmount { transaction: number });
        },
    };
    let dbit = chars_of("DBIT");
    let crdt = chars_of("CRDT");
    let amount = match &row.credit_debit_indicator {
        Some(d) => {
            let dc = chars_of(d.as_str());
            if chars_eq(&dc, &dbit) {
                Amount(-magnitude.0)
            } else if chars_eq(&dc, &crdt) {
                magnitude
            } else {
                return Err(
                    StatementError::UnknownDirection {
                        transaction: number,
                        direction: string_of(&dc),
                    },
                );
            }
        },
        None => magnitude,
    };
    let booked = match row.booking_date {
        Some(b) => b,
        None => {
            return Err(StatementError::BadTransactionAmount { transaction: number });
        },
    };
    let text_chars = trim_chars(&join_with_spaces(&row.remittance_information));
    let text = string_of(&text_chars);
    let kind: Option<&str> = match &row.bank_transaction_code {
        Some(code) => match &code.description {
            Some(d) => Some(d.as_str()),
            None => None,
        },
        None => None,
    };
    let descriptor = enable_banking_descriptor(text.as_str(), kind, row.transaction_date);
    let balance = match &row.balance_after_transaction {
        Some(b) => match Amount::parse(b.as_str()) {
            Ok(a) => Some(a),
            Err(_) => None,
        },
        None => None,
    };
    let reference = match &row.entry_reference {
        Some(r) => Some(r.clone()),
        None => None,
    };
    Ok(
        Transaction {
            booked,
            value_date: match row.value_date {
                Some(v) => v,
                None => booked,
            },
            batch: String::new(),
            text,
            amount,
            balance,
            descriptor,
            reference,
        },
    )
}

/// Turns Enable Banking's transactions into the statement's. Pending
/// transactions are left out; a direction other than `DBIT` or `CRDT`, or
/// an amount that does not read, is an error naming the transaction by
/// its place in the list, counting from one.
pub fn from_enable_banking(rows: &Vec<EbTransaction>) -> (r: Result<Vec<Transaction>, StatementError>)
    ensures
        match r {
            Ok(ts) => eb_rows(rows@) == Ok::<Seq<TransactionView>, Fault>(tx_views(ts@)),
            Err(e) => eb_rows(rows@) == Err::<Seq<TransactionView>, Fault>(e@),
        },
{
    let mut out: Vec<Transaction> = Vec::new();
    let mut k: usize = 0;
    assert(rows@.take(0) =~= Seq::<EbTransaction>::empty());
    assert(tx_views(out@) =~= Seq::<TransactionView>::empty());
    while k < rows.len()
        invariant
            k <= rows@.len(),
            eb_rows(rows@.take(k as int)) == Ok::<Seq<TransactionView>, Fault>(tx_views(out@)),
        decreases rows.len() - k,
    {
        let row = &rows[k];
        proof {
            assert(rows@.take(k + 1).drop_last() =~= rows@.take(k as int));
            assert(rows@.take(k + 1).last() == rows@[k as int]);
        }
        let pending = match &row.status {
            Some(s) => chars_eq(&chars_of(s.as_str()), &chars_of("PDNG")),
            None => false,
        };
        if !pending && row.booking_date.is_some() {
            match eb_transaction(row, k + 1) {
                Ok(t) => {
                    let ghost before = tx_views(out@);
                    out.push(t);
                    assert(tx_views(out@) =~= before.push(t@));
                },
                Err(e) => {
                    proof {
                        lemma_eb_rows_err(rows@, k + 1);
                    }
                    return Err(e);
                },
            }
        }
        k = k + 1;
    }
    assert(rows@.take(k as int) =~= rows@);
    Ok(out)
}


/// The part of a file name before its extension, as `Path::file_stem`
/// has it: a leading dot starts the name rather than an extension.
pub open spec fn file_stem_of(name: Seq<char>) -> Seq<char> {
    let dot = last_dot(name);
    if dot <= 0 {
        name
    } else {
        name.take(dot)
    }
}

/// Index of the last `.`, or -1.
pub open spec fn last_dot(s: Seq<char>) -> int
    decreases s.len(),
{
    if s.len() == 0 {
        -1
    } else if s.last() == '.' {
        s.len() - 1
    } else {
        last_dot(s.drop_last())
    }
}

proof fn lemma_last_dot(s: Seq<char>)
    ensures
        -1 <= last_dot(s) < s.len(),
        last_dot(s) >= 0 ==> s[last_dot(s)] == '.',
        forall|j: int| last_dot(s) < j < s.len() ==> #[trigger] s[j] != '.',
    decreases s.len(),
{
    if s.len() > 0 && s.last() != '.' {
        lemma_last_dot(s.drop_last());
        assert forall|j: int| last_dot(s) < j < s.len() implies #[trigger] s[j] != '.' by {
            if j < s.len() - 1 {
                assert(s[j] == s.drop_last()[j]);
            }
        }
    }
}

/// The name an account goes by: its statement's file name without the
/// extension, and without a `transactions-` in front; the whole path when
/// it names no file.
pub open spec fn account_of(path: Seq<char>) -> Seq<char> {
    let stem = match crate::git::file_name_of(path) {
        Some(name) => file_stem_of(name),
        None => path,
    };
    let prefix = "transactions-"@;
    if prefix.len() <= stem.len() && stem.take(prefix.len() as int) == prefix {
        stem.skip(prefix.len() as int)
    } else {
        stem
    }
}

/// Names an account after its statement's file.
pub fn account_name(path: &str) -> (r: String)
    ensures
        r@ == account_of(path@),
{
    let cs = match crate::git::file_name(path) {
        Some(name) => name,
        None => {
            let whole = chars_of(path);
            let prefix = chars_of("transactions-");
            let rest = if crate::text::starts_with(&whole, &prefix) {
                slice_vec(&whole, prefix.len(), whole.len())
            } else {
                slice_vec(&whole, 0, whole.len())
            };
            assert(whole@.subrange(0, whole@.len() as int) =~= whole@);
            assert(whole@.subrange(prefix@.len() as int, whole@.len() as int) =~= whole@.skip(
                prefix@.len() as int,
            ));
            return string_of(&rest);
        },
    };
    proof {
        lemma_last_dot(cs@);
    }
    let mut i = cs.len();
    while i > 0 && cs[i - 1] != '.'
        invariant
            i <= cs@.len(),
            last_dot(cs@) < i,
            -1 <= last_dot(cs@),
            last_dot(cs@) >= 0 ==> cs@[last_dot(cs@)] == '.',
        decreases i,
    {
        proof {
            if last_dot(cs@) == i - 1 {
                assert(cs@[i - 1] == '.');
            }
        }
        i = i - 1;
    }
    proof {
        if i > 0 {
            if last_dot(cs@) < i - 1 {
                lemma_last_dot(cs@);
                assert(cs@[i - 1] != '.');
            }
        }
    }
    let stem = if i <= 1 {
        slice_vec(&cs, 0, cs.len())
    } else {
        slice_vec(&cs, 0, i - 1)
    };
    assert(cs@.take(cs@.len() as int) =~= cs@);
    let prefix = chars_of("transactions-");
    let rest = if crate::text::starts_with(&stem, &prefix) {
        slice_vec(&stem, prefix.len(), stem.len())
    } else {
        slice_vec(&stem, 0, stem.len())
    };
    assert(stem@.subrange(0, stem@.len() as int) =~= stem@);
    assert(stem@.subrange(prefix@.len() as int, stem@.len() as int) =~= stem@.skip(
        prefix@.len() as int,
    ));
    string_of(&rest)
}


/// Two lines are joined with one space between them.
pub proof fn law_join_two_lines(a: Seq<char>, b: Seq<char>)
    ensures
        join_spaces(seq![a, b]) == a + seq![' '] + b,
{
    let parts = seq![a, b];
    assert(parts.drop_last() =~= seq![a]);
    assert(join_spaces(seq![a]) == a);
    assert(parts.last() == b);
    assert(join_spaces(parts) == join_spaces(parts.drop_last()) + seq![' '] + parts.last());
}

/// Joining the lines of two non-empty lists is joining each list and
/// putting one space between the two.
pub proof fn law_join_concatenates(xs: Seq<Seq<char>>, ys: Seq<Seq<char>>)
    requires
        xs.len() > 0,
        ys.len() > 0,
    ensures
        join_spaces(xs + ys) == join_spaces(xs) + seq![' '] + join_spaces(ys),
    decreases ys.len(),
{
    let all = xs + ys;
    assert(all.last() == ys.last());
    if ys.len() == 1 {
        assert(all.drop_last() =~= xs);
        assert(ys.last() == ys[0]);
    } else {
        law_join_concatenates(xs, ys.drop_last());
        assert(all.drop_last() =~= xs + ys.drop_last());
        assert(join_spaces(xs + ys) =~= join_spaces(xs) + seq![' '] + join_spaces(ys));
    }
}

/// An Enable Banking row with two remittance lines reads as the two lines
/// with one space between them, trimmed.
pub proof fn law_eb_text_joins_lines(row: EbTransaction, a: Seq<char>, b: Seq<char>)
    requires
        string_views(row.remittance_information@) == seq![a, b],
    ensures
        eb_text(row) == trim(a + seq![' '] + b),
{
    law_join_two_lines(a, b);
}

} // verus!
