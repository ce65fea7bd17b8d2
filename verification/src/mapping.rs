//! The merchant tables: their schema, and the checks that turn a typo into
//! an error rather than a silently unmatched transaction.

use vstd::prelude::*;

use crate::pattern::{regex_compiles, regex_valid};
use crate::text::{blank, chars_of, is_blank, string_of};

verus! {

/// The only schema version this build understands.
pub const SCHEMA_VERSION: u32 = 1;

/// A whole mapping file.
#[derive(Debug, Clone)]
pub struct Table {
    pub version: u32,
    /// Short identifier, used in `--explain` output and conflict reports.
    pub name: String,
    pub description: Option<String>,
    pub normalize: Normalize,
    pub merchants: Vec<Merchant>,
    /// Where the table was loaded from.
    pub origin: String,
}

/// Rewrites applied to a descriptor before matching. Unioned across every
/// loaded table, since these describe the payment system rather than any
/// one person's spending.
#[derive(Debug, Clone, Default)]
pub struct Normalize {
    /// Payment-provider prefixes. When a descriptor does not match
    /// anything as written, each prefix is stripped in turn and the
    /// remainder is looked up again.
    pub strip_prefixes: Vec<StripPrefix>,
}

#[derive(Debug, Clone)]
pub struct StripPrefix {
    /// The prefix as it appears in the descriptor, before normalisation.
    pub prefix: String,
    /// The provider it identifies, reported as the transaction's `via`.
    pub provider: Option<String>,
}

#[derive(Debug, Clone)]
pub struct Merchant {
    pub name: String,
    pub category: Option<String>,
    pub tags: Vec<String>,
    pub note: Option<String>,
    pub match_: Match,
}

/// The rule kinds, in decreasing order of how specific a hit is taken to
/// be. Within a kind, a longer pattern wins over a shorter one.
#[derive(Debug, Clone, Default)]
pub struct Match {
    /// The whole normalised descriptor, exactly.
    pub exact: Vec<String>,
    /// The start of it.
    pub prefix: Vec<String>,
    pub contains: Vec<String>,
    /// An unanchored regular expression, matched against the normalised
    /// descriptor.
    pub regex: Vec<String>,
    /// Only transactions of this amount, or within this inclusive range.
    pub amount: Option<AmountCondition>,
}

#[derive(Debug, Clone)]
pub enum AmountCondition {
    Exact(String),
    Range(Vec<String>),
}

pub open spec fn no_rules(m: Match) -> bool {
    &&& m.exact@.len() == 0
    &&& m.prefix@.len() == 0
    &&& m.contains@.len() == 0
    &&& m.regex@.len() == 0
}

impl Match {
    /// Whether there is no rule at all to match by.
    pub fn is_empty(&self) -> (r: bool)
        ensures
            r == no_rules(*self),
    {
        self.exact.len() == 0 && self.prefix.len() == 0 && self.contains.len() == 0
            && self.regex.len() == 0
    }
}

/// What is wrong with a table that parsed.
#[derive(Debug, Clone, PartialEq, Eq)]
pub enum TableError {
    /// A schema version this build does not read.
    UnsupportedVersion { origin: String, version: u32 },
    /// A blank name.
    Unnamed { origin: String },
    /// A merchant with no rules, which could never match anything.
    NoRules { origin: String, merchant: String },
    /// A merchant with a regular expression that does not compile.
    BadRegex { origin: String, merchant: String },
}

pub enum TableFault {
    UnsupportedVersion(u32),
    Unnamed,
    NoRules(Seq<char>),
    BadRegex(Seq<char>),
}

pub open spec fn table_error_view(e: TableError) -> (Seq<char>, TableFault) {
    match e {
        TableError::UnsupportedVersion { origin, version } => (
            origin@,
            TableFault::UnsupportedVersion(version),
        ),
        TableError::Unnamed { origin } => (origin@, TableFault::Unnamed),
        TableError::NoRules { origin, merchant } => (origin@, TableFault::NoRules(merchant@)),
        TableError::BadRegex { origin, merchant } => (origin@, TableFault::BadRegex(merchant@)),
    }
}

/// What is wrong with one merchant: no rules, or a regular expression
/// that does not compile.
pub open spec fn merchant_fault(m: Merchant) -> Option<TableFault> {
    if no_rules(m.match_) {
        Some(TableFault::NoRules(m.name@))
    } else if exists|i: int| 0 <= i < m.match_.regex@.len() && !regex_valid(#[trigger] m.match_.regex@[i]@) {
        Some(TableFault::BadRegex(m.name@))
    } else {
        None
    }
}

/// The first merchant fault, in file order.
pub open spec fn merchants_fault(ms: Seq<Merchant>) -> Option<TableFault>
    decreases ms.len(),
{
    if ms.len() == 0 {
        None
    } else {
        match merchants_fault(ms.drop_last()) {
            Some(f) => Some(f),
            None => merchant_fault(ms.last()),
        }
    }
}

/// What is wrong with a table, checked in this order: its version, its
/// name, then each merchant.
pub open spec fn table_fault(t: Table) -> Option<TableFault> {
    if t.version != SCHEMA_VERSION {
        Some(TableFault::UnsupportedVersion(t.version))
    } else if is_blank(t.name@) {
        Some(TableFault::Unnamed)
    } else {
        merchants_fault(t.merchants@)
    }
}

fn check_merchant(m: &Merchant) -> (r: bool)
    ensures
        r == (merchant_fault(*m) is None),
{
    if m.match_.is_empty() {
        return false;
    }
    let mut i: usize = 0;
    while i < m.match_.regex.len()
        invariant
            i <= m.match_.regex@.len(),
            forall|j: int| 0 <= j < i ==> regex_valid(#[trigger] m.match_.regex@[j]@),
        decreases m.match_.regex.len() - i,
    {
        if !regex_compiles(m.match_.regex[i].as_str()) {
            return false;
        }
        i = i + 1;
    }
    true
}

/// Checks a table that parsed and records where it came from: a version
/// this build reads, a name, and merchants that can each match something.
pub fn check_table(table: Table, origin: &str) -> (r: Result<Table, TableError>)
    ensures
        match r {
            Ok(t) => table_fault(table) is None && t.origin@ == origin@ && t.version
                == table.version && t.name == table.name && t.description == table.description
                && t.normalize == table.normalize && t.merchants == table.merchants,
            Err(e) => table_fault(table) == Some(table_error_view(e).1) && table_error_view(e).0
                == origin@,
        },
{
    let origin_string = string_of(&chars_of(origin));
    if table.version != SCHEMA_VERSION {
        return Err(
            TableError::UnsupportedVersion { origin: origin_string, version: table.version },
        );
    }
    if blank(&chars_of(table.name.as_str())) {
        return Err(TableError::Unnamed { origin: origin_string });
    }
    let mut i: usize = 0;
    while i < table.merchants.len()
        invariant
            i <= table.merchants@.len(),
            merchants_fault(table.merchants@.take(i as int)) is None,
            table.version == SCHEMA_VERSION,
            !is_blank(table.name@),
            origin_string@ == origin@,
        decreases table.merchants.len() - i,
    {
        proof {
            assert(table.merchants@.take(i + 1).drop_last() =~= table.merchants@.take(i as int));
        }
        let m = &table.merchants[i];
        if !check_merchant(m) {
            proof {
                lemma_first_fault(table.merchants@, i + 1);
            }
            let merchant = m.name.clone();
            if m.match_.is_empty() {
                return Err(TableError::NoRules { origin: origin_string, merchant });
            }
            return Err(TableError::BadRegex { origin: origin_string, merchant });
        }
        i = i + 1;
    }
    assert(table.merchants@.take(i as int) =~= table.merchants@);
    let Table { version, name, description, normalize, merchants, origin: _ } = table;
    Ok(Table { version, name, description, normalize, merchants, origin: origin_string })
}

proof fn lemma_first_fault(ms: Seq<Merchant>, j: int)
    requires
        0 <= j <= ms.len(),
        merchants_fault(ms.take(j)) is Some,
    ensures
        merchants_fault(ms) == merchants_fault(ms.take(j)),
    decreases ms.len(),
{
    if ms.len() > j {
        assert(ms.drop_last().take(j) =~= ms.take(j));
        lemma_first_fault(ms.drop_last(), j);
    } else {
        assert(ms.take(j) =~= ms);
    }
}

} // verus!
